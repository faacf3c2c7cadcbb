# luadejit-core

A decompiler for LuaJIT 2.1 bytecode: `decompile` takes the bytes of a dump
and returns Lua source. Every function of the library carries a contract that
says what it returns on every input, and Verus proves the code against it.

## Layout

| Module | What it holds |
|---|---|
| `frontend` | Reading a dump into a `Module`. `frontend::grammar` says what each part of a dump reads as; `frontend::encoding` says how a dump is written, and proves that every dump so written is read back. |
| `ir` | Modules, prototypes, instructions, constants and debug records. |
| `cfg` | Basic blocks and their edges; `cfg::dominators` holds the dominator tree. |
| `structure` | Recovering statements from the graph of a function. |
| `emit` | Printing statements as Lua source. |
| `number` | Printing numbers as Lua does, over their bit patterns. |
| `text` | Strings as sequences of characters. |

`app/` is the command line program around the library, and `tests/` exercises
the library on concrete dumps, graphs and statements.

Functions named `law_...` state what holds across functions: what is read back
of what was written, what every graph satisfies, what printing keeps.
