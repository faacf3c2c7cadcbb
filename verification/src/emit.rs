//! Source emission from a parsed [`Module`].
//!
//! [`emit_module`] builds the control flow graph of the main proto,
//! recovers its source tree ([`crate::structure::recover`]), and formats
//! the tree.
//!
//! ## Formatting invariants
//!
//! - Statements join with `\n`; no trailing newline.
//! - `Return(None)` (implicit return) emits no line: the source chunk
//!   just ends.
//! - Bodies indent 4 spaces per level.
//! - Number literals go through [`crate::number::format_lua_number`].
//! - String literals are lossily decoded and debug-quoted, which is
//!   close to Lua's escaping for the common cases.
//! - Nested expressions are not parenthesized.

use vstd::prelude::*;
use vstd::string::StringExecFns;

use crate::cfg;
use crate::cfg::Cfg;
use crate::ir;
use crate::ir::{Module, ModuleV};
use crate::number;
use crate::number::format_lua_number;
use crate::structure;
use crate::structure::ast;
use crate::structure::ast::{
    BinOpKind, Expr, ExprV, Stmt, StmtV, TableEntry, TableEntryV,
};
use crate::structure::recover;
use crate::text;
use crate::DecompilerError;
use crate::Fault;

verus! {

/// Number of spaces per indentation level.
pub const INDENT_SPACES: usize = 4;

// ---- What is printed ----------------------------------------------------------

/// The indentation one level further in.
pub open spec fn deeper(pad: Seq<char>) -> Seq<char> {
    pad + "    "@
}

/// The indentation of a level.
pub open spec fn indentation(level: nat) -> Seq<char> {
    text::times(' ', level * 4)
}

/// The Lua source operator.
pub open spec fn symbol(op: BinOpKind) -> Seq<char> {
    match op {
        BinOpKind::Add => "+"@,
        BinOpKind::Sub => "-"@,
        BinOpKind::Mul => "*"@,
        BinOpKind::Div => "/"@,
        BinOpKind::Mod => "%"@,
        BinOpKind::Pow => "^"@,
        BinOpKind::Concat => ".."@,
        BinOpKind::Equal => "=="@,
        BinOpKind::NotEqual => "~="@,
        BinOpKind::LessThan => "<"@,
        BinOpKind::GreaterThan => ">"@,
        BinOpKind::LessEqual => "<="@,
        BinOpKind::GreaterEqual => ">="@,
    }
}

/// An expression as Lua source. `pad` is the indentation of the
/// statement it stands in, which only a function literal's lines need.
pub open spec fn expr_text(e: ExprV, pad: Seq<char>) -> Seq<char>
    decreases e,
{
    match e {
        ExprV::Var(name) => name,
        ExprV::Global(name) => name,
        ExprV::Int(i) => text::signed_decimal(i as int),
        ExprV::Float(bits) => number::lua_number(bits),
        ExprV::Str(bytes) => text::debug_quoted(text::utf8_lossy(bytes)),
        ExprV::Nil => "nil"@,
        ExprV::True => "true"@,
        ExprV::False => "false"@,
        ExprV::BinOp { op, left, right } => expr_text(*left, pad) + " "@ + symbol(op) + " "@
            + expr_text(*right, pad),
        ExprV::Not(inner) => "not "@ + expr_text(*inner, pad),
        ExprV::And(left, right) => expr_text(*left, pad) + " and "@ + expr_text(*right, pad),
        ExprV::Or(left, right) => expr_text(*left, pad) + " or "@ + expr_text(*right, pad),
        ExprV::Call { func, args } => expr_text(*func, pad) + "("@ + exprs_text(args, pad) + ")"@,
        ExprV::Field { obj, name } => expr_text(*obj, pad) + "."@ + name,
        ExprV::Index { obj, key } => expr_text(*obj, pad) + "["@ + expr_text(*key, pad) + "]"@,
        ExprV::MethodCall { obj, method, args } => expr_text(*obj, pad) + ":"@ + method + "("@
            + exprs_text(args, pad) + ")"@,
        ExprV::Table { entries } => "{"@ + entries_text(entries, pad) + "}"@,
        ExprV::Len(inner) => "#"@ + expr_text(*inner, pad),
        ExprV::Function { params, body } => "function("@ + text::joined(params, ", "@) + ")"@
            + body_text(body, deeper(pad)) + "\n"@ + pad + "end"@,
        ExprV::Vararg => "..."@,
    }
}

/// Expressions with commas between them.
pub open spec fn exprs_text(s: Seq<ExprV>, pad: Seq<char>) -> Seq<char>
    decreases s,
{
    if s.len() == 0 {
        seq![]
    } else if s.len() == 1 {
        expr_text(s.last(), pad)
    } else {
        exprs_text(s.drop_last(), pad) + ", "@ + expr_text(s.last(), pad)
    }
}

/// A table entry: `val`, `key = val` or `[key] = val`.
pub open spec fn entry_text(e: TableEntryV, pad: Seq<char>) -> Seq<char>
    decreases e,
{
    match e {
        TableEntryV::Array(value) => expr_text(value, pad),
        TableEntryV::HashStr(key, value) => key + " = "@ + expr_text(value, pad),
        TableEntryV::HashExpr(key, value) => "["@ + expr_text(key, pad) + "] = "@ + expr_text(
            value,
            pad,
        ),
    }
}

/// Table entries with commas between them.
pub open spec fn entries_text(s: Seq<TableEntryV>, pad: Seq<char>) -> Seq<char>
    decreases s,
{
    if s.len() == 0 {
        seq![]
    } else if s.len() == 1 {
        entry_text(s.last(), pad)
    } else {
        entries_text(s.drop_last(), pad) + ", "@ + entry_text(s.last(), pad)
    }
}

/// A statement as Lua source, indented by `pad`. The implicit return is
/// nothing (see [`silent`]).
pub open spec fn stmt_text(s: StmtV, pad: Seq<char>) -> Seq<char>
    decreases s,
{
    match s {
        StmtV::LocalDecl { name, expr } => pad + "local "@ + name + " = "@ + expr_text(expr, pad),
        StmtV::Assign { name, expr } => pad + name + " = "@ + expr_text(expr, pad),
        StmtV::Return(value) => match value {
            Some(e) => pad + "return "@ + expr_text(e, pad),
            None => seq![],
        },
        StmtV::If { cond, then_body, else_body } => pad + "if "@ + expr_text(cond, pad) + " then"@
            + body_text(then_body, deeper(pad)) + (match else_body {
            Some(b) => "\n"@ + pad + "else"@ + body_text(b, deeper(pad)),
            None => seq![],
        }) + "\n"@ + pad + "end"@,
        StmtV::For { var, start, stop, step, body } => pad + "for "@ + var + " = "@ + expr_text(
            start,
            pad,
        ) + ", "@ + expr_text(stop, pad) + (match step {
            Some(e) => ", "@ + expr_text(e, pad),
            None => seq![],
        }) + " do"@ + body_text(body, deeper(pad)) + "\n"@ + pad + "end"@,
        StmtV::ForIn { vars, iterator, body } => pad + "for "@ + text::joined(vars, ", "@)
            + " in "@ + expr_text(iterator, pad) + " do"@ + body_text(body, deeper(pad)) + "\n"@
            + pad + "end"@,
        StmtV::While { cond, body } => pad + "while "@ + expr_text(cond, pad) + " do"@ + body_text(
            body,
            deeper(pad),
        ) + "\n"@ + pad + "end"@,
        StmtV::Repeat { cond, body } => pad + "repeat"@ + body_text(body, deeper(pad)) + "\n"@ + pad
            + "until "@ + expr_text(cond, pad),
        StmtV::Call { func, args } => pad + expr_text(func, pad) + "("@ + exprs_text(args, pad)
            + ")"@,
        StmtV::MethodCall { obj, method, args } => pad + expr_text(obj, pad) + ":"@ + method + "("@
            + exprs_text(args, pad) + ")"@,
        StmtV::TableSet { target, value } => pad + expr_text(target, pad) + " = "@ + expr_text(
            value,
            pad,
        ),
        StmtV::LocalDeclMulti { names, expr } => pad + "local "@ + text::joined(names, ", "@)
            + " = "@ + expr_text(expr, pad),
    }
}

/// Whether a statement emits no line: the implicit return.
pub open spec fn silent(s: StmtV) -> bool {
    s == StmtV::Return(None)
}

/// The statements of a body, each that is not silent on lines of its own
/// behind what precedes them.
pub open spec fn body_text(s: Seq<StmtV>, pad: Seq<char>) -> Seq<char>
    decreases s,
{
    if s.len() == 0 {
        seq![]
    } else if silent(s.last()) {
        body_text(s.drop_last(), pad)
    } else {
        body_text(s.drop_last(), pad) + "\n"@ + stmt_text(s.last(), pad)
    }
}

/// The lines of a chunk, without indentation.
pub open spec fn chunk_lines(s: Seq<StmtV>) -> Seq<Seq<char>>
    decreases s.len(),
{
    if s.len() == 0 {
        seq![]
    } else if silent(s.last()) {
        chunk_lines(s.drop_last())
    } else {
        chunk_lines(s.drop_last()).push(stmt_text(s.last(), seq![]))
    }
}

/// A chunk as Lua source: its statements joined by newlines.
pub open spec fn chunk_text(s: Seq<StmtV>) -> Seq<char> {
    text::joined(chunk_lines(s), "\n"@)
}

/// What a module is emitted as: the recovered body of its main
/// prototype, which is the last one.
pub open spec fn module_text(m: ModuleV) -> Result<Seq<char>, Fault> {
    let main = (m.protos.len() - 1) as nat;
    match structure::recovered_proto(m, main, ir::flags_fr2(m.header.flags), None) {
        Err(f) => Err(f),
        Ok(stmts) => Ok(chunk_text(stmts)),
    }
}

/// The implicit return at the end of a chunk emits no line: the source
/// just ends.
pub proof fn law_implicit_return_adds_nothing(s: Seq<StmtV>)
    ensures
        chunk_text(s.push(StmtV::Return(None))) == chunk_text(s),
{
    assert(s.push(StmtV::Return(None)).drop_last() =~= s);
}

/// The lines of two runs of statements are those of the one, then those
/// of the other.
proof fn lemma_chunk_lines_add(s: Seq<StmtV>, t: Seq<StmtV>)
    ensures
        chunk_lines(s + t) == chunk_lines(s) + chunk_lines(t),
    decreases t.len(),
{
    if t.len() == 0 {
        assert(s + t =~= s);
        assert(chunk_lines(s) + chunk_lines(t) =~= chunk_lines(s));
    } else {
        lemma_chunk_lines_add(s, t.drop_last());
        assert((s + t).drop_last() =~= s + t.drop_last());
        assert(chunk_lines(s + t) =~= chunk_lines(s) + chunk_lines(t));
    }
}

/// Joining two runs puts one separator between their joins.
proof fn lemma_joined_add(a: Seq<Seq<char>>, b: Seq<Seq<char>>, sep: Seq<char>)
    requires
        a.len() > 0,
        b.len() > 0,
    ensures
        text::joined(a + b, sep) == text::joined(a, sep) + sep + text::joined(b, sep),
    decreases b.len(),
{
    assert((a + b).drop_last() =~= a + b.drop_last());
    if b.len() == 1 {
        assert(a + b.drop_last() =~= a);
    } else {
        lemma_joined_add(a, b.drop_last(), sep);
        assert(text::joined(a + b, sep) =~= text::joined(a, sep) + sep + text::joined(b, sep));
    }
}

/// Statements join with newlines: the source of two runs of statements,
/// each of which emits something, is theirs with one newline between.
pub proof fn law_statements_join_with_newlines(s: Seq<StmtV>, t: Seq<StmtV>)
    requires
        exists|i: int| 0 <= i < s.len() && !silent(#[trigger] s[i]),
        exists|i: int| 0 <= i < t.len() && !silent(#[trigger] t[i]),
    ensures
        chunk_text(s + t) == chunk_text(s) + "\n"@ + chunk_text(t),
{
    lemma_chunk_lines_add(s, t);
    lemma_chunk_lines_some(s);
    lemma_chunk_lines_some(t);
    lemma_joined_add(chunk_lines(s), chunk_lines(t), "\n"@);
}

/// A statement that is not silent makes a line.
proof fn lemma_chunk_lines_some(s: Seq<StmtV>)
    requires
        exists|i: int| 0 <= i < s.len() && !silent(#[trigger] s[i]),
    ensures
        chunk_lines(s).len() > 0,
    decreases s.len(),
{
    if silent(s.last()) {
        let i = choose|i: int| 0 <= i < s.len() && !silent(#[trigger] s[i]);
        assert(s.drop_last()[i] == s[i]);
        lemma_chunk_lines_some(s.drop_last());
    }
}

/// A chunk does not end with a newline, unless its last statement does.
pub proof fn law_no_trailing_newline(s: Seq<StmtV>)
    requires
        forall|i: int|
            0 <= i < s.len() && !silent(#[trigger] s[i]) ==> stmt_text(s[i], seq![]).len() > 0
                && stmt_text(s[i], seq![]).last() != '\n',
    ensures
        chunk_text(s).len() == 0 || chunk_text(s).last() != '\n',
    decreases s.len(),
{
    if s.len() > 0 {
        if silent(s.last()) {
            assert forall|i: int|
                0 <= i < s.drop_last().len() && !silent(
                    #[trigger] s.drop_last()[i],
                ) implies stmt_text(s.drop_last()[i], seq![]).len() > 0 && stmt_text(
                s.drop_last()[i],
                seq![],
            ).last() != '\n' by {
                assert(s.drop_last()[i] == s[i]);
            }
            law_no_trailing_newline(s.drop_last());
        } else {
            let last = stmt_text(s[s.len() - 1], seq![]);
            assert(chunk_lines(s).last() == last);
            assert(chunk_text(s).last() == last.last());
        }
    }
}

/// Each level indents by four more spaces.
pub proof fn law_levels_indent_by_four(level: nat)
    ensures
        deeper(indentation(level)) == indentation(level + 1),
        indentation(level).len() == 4 * level,
{
    reveal_strlit("    ");
    assert(deeper(indentation(level)) =~= indentation(level + 1));
}

/// Every statement that emits something starts with its indentation.
pub proof fn law_statements_start_with_their_indentation(s: StmtV, pad: Seq<char>)
    requires
        !silent(s),
    ensures
        pad.is_prefix_of(stmt_text(s, pad)),
{
    let t = stmt_text(s, pad);
    assert(t.len() >= pad.len());
    assert(pad =~= t.subrange(0, pad.len() as int));
}

/// The operator that a piece of Lua source names.
pub open spec fn operator_named(s: Seq<char>) -> Option<BinOpKind> {
    if s == seq!['+'] {
        Some(BinOpKind::Add)
    } else if s == seq!['-'] {
        Some(BinOpKind::Sub)
    } else if s == seq!['*'] {
        Some(BinOpKind::Mul)
    } else if s == seq!['/'] {
        Some(BinOpKind::Div)
    } else if s == seq!['%'] {
        Some(BinOpKind::Mod)
    } else if s == seq!['^'] {
        Some(BinOpKind::Pow)
    } else if s == seq!['.', '.'] {
        Some(BinOpKind::Concat)
    } else if s == seq!['=', '='] {
        Some(BinOpKind::Equal)
    } else if s == seq!['~', '='] {
        Some(BinOpKind::NotEqual)
    } else if s == seq!['<'] {
        Some(BinOpKind::LessThan)
    } else if s == seq!['>'] {
        Some(BinOpKind::GreaterThan)
    } else if s == seq!['<', '='] {
        Some(BinOpKind::LessEqual)
    } else if s == seq!['>', '='] {
        Some(BinOpKind::GreaterEqual)
    } else {
        None
    }
}

/// A printed operator is read as itself.
pub proof fn law_operators_read_back(op: BinOpKind)
    ensures
        operator_named(symbol(op)) == Some(op),
{
    reveal_strlit("+");
    reveal_strlit("-");
    reveal_strlit("*");
    reveal_strlit("/");
    reveal_strlit("%");
    reveal_strlit("^");
    reveal_strlit("..");
    reveal_strlit("==");
    reveal_strlit("~=");
    reveal_strlit("<");
    reveal_strlit(">");
    reveal_strlit("<=");
    reveal_strlit(">=");
    let s = symbol(op);
    let one = seq![s[0]];
    let two = seq![s[0], s[1]];
    if s.len() == 1 {
        assert(s =~= one);
    } else {
        assert(s =~= two);
    }
    match op {
        BinOpKind::Add => assert(s =~= seq!['+']),
        BinOpKind::Sub => assert(s =~= seq!['-']),
        BinOpKind::Mul => assert(s =~= seq!['*']),
        BinOpKind::Div => assert(s =~= seq!['/']),
        BinOpKind::Mod => assert(s =~= seq!['%']),
        BinOpKind::Pow => assert(s =~= seq!['^']),
        BinOpKind::Concat => assert(s =~= seq!['.', '.']),
        BinOpKind::Equal => assert(s =~= seq!['=', '=']),
        BinOpKind::NotEqual => assert(s =~= seq!['~', '=']),
        BinOpKind::LessThan => assert(s =~= seq!['<']),
        BinOpKind::GreaterThan => assert(s =~= seq!['>']),
        BinOpKind::LessEqual => assert(s =~= seq!['<', '=']),
        BinOpKind::GreaterEqual => assert(s =~= seq!['>', '=']),
    }
}

/// A list prints every item: one more argument, or one more table entry,
/// stands behind a comma.
pub proof fn law_lists_print_every_item(
    exprs: Seq<ExprV>,
    e: ExprV,
    entries: Seq<TableEntryV>,
    entry: TableEntryV,
    pad: Seq<char>,
)
    ensures
        exprs_text(seq![e], pad) == expr_text(e, pad),
        exprs.len() > 0 ==> exprs_text(exprs.push(e), pad) == exprs_text(exprs, pad) + ", "@
            + expr_text(e, pad),
        entries_text(seq![entry], pad) == entry_text(entry, pad),
        entries.len() > 0 ==> entries_text(entries.push(entry), pad) == entries_text(entries, pad)
            + ", "@ + entry_text(entry, pad),
{
    assert(exprs.push(e).drop_last() =~= exprs);
    assert(entries.push(entry).drop_last() =~= entries);
}

/// A body prints every statement: one more stands on lines of its own
/// behind the others, unless it is the implicit return.
pub proof fn law_bodies_print_every_statement(s: Seq<StmtV>, stmt: StmtV, pad: Seq<char>)
    ensures
        stmt != StmtV::Return(None) ==> body_text(s.push(stmt), pad) == body_text(s, pad) + "\n"@
            + stmt_text(stmt, pad),
        body_text(s.push(StmtV::Return(None)), pad) == body_text(s, pad),
{
    assert(s.push(stmt).drop_last() =~= s);
    assert(s.push(StmtV::Return(None)).drop_last() =~= s);
}

/// Names print as they are, integers as their numerals, floats as Lua
/// prints them, and strings quoted.
pub proof fn law_leaves_print_as_themselves(
    name: Seq<char>,
    i: i32,
    bits: u64,
    bytes: Seq<u8>,
    pad: Seq<char>,
)
    ensures
        expr_text(ExprV::Var(name), pad) == name,
        expr_text(ExprV::Global(name), pad) == name,
        i >= 0 ==> text::numeral_value(expr_text(ExprV::Int(i), pad), 10) == i,
        i < 0 ==> expr_text(ExprV::Int(i), pad)[0] == '-' && text::numeral_value(
            expr_text(ExprV::Int(i), pad).skip(1),
            10,
        ) == -i,
        expr_text(ExprV::Float(bits), pad) == number::lua_number(bits),
        expr_text(ExprV::Str(bytes), pad) == text::debug_quoted(text::utf8_lossy(bytes)),
        expr_text(ExprV::Nil, pad) == seq!['n', 'i', 'l'],
        expr_text(ExprV::True, pad) == seq!['t', 'r', 'u', 'e'],
        expr_text(ExprV::False, pad) == seq!['f', 'a', 'l', 's', 'e'],
        expr_text(ExprV::Vararg, pad) == seq!['.', '.', '.'],
{
    text::law_signed_decimal_reads_back(i as int);
    reveal_strlit("nil");
    reveal_strlit("true");
    reveal_strlit("false");
    reveal_strlit("...");
    assert("nil"@ =~= seq!['n', 'i', 'l']);
    assert("true"@ =~= seq!['t', 'r', 'u', 'e']);
    assert("false"@ =~= seq!['f', 'a', 'l', 's', 'e']);
    assert("..."@ =~= seq!['.', '.', '.']);
}

/// An expression prints its parts in order, between Lua's own signs.
pub proof fn law_expressions_print_their_parts(
    op: BinOpKind,
    a: ExprV,
    b: ExprV,
    name: Seq<char>,
    args: Seq<ExprV>,
    pad: Seq<char>,
)
    ensures
        ({
            let (x, y) = (Box::new(a), Box::new(b));
            let (s, t) = (expr_text(a, pad), expr_text(b, pad));
            let list = exprs_text(args, pad);
            &&& expr_text((ExprV::BinOp { op, left: x, right: y }), pad) == s + " "@ + symbol(op)
                + " "@ + t
            &&& expr_text(ExprV::And(x, y), pad) == s + " and "@ + t
            &&& expr_text(ExprV::Or(x, y), pad) == s + " or "@ + t
            &&& expr_text(ExprV::Not(x), pad) == "not "@ + s
            &&& expr_text(ExprV::Len(x), pad) == "#"@ + s
            &&& expr_text((ExprV::Field { obj: x, name }), pad) == s + "."@ + name
            &&& expr_text((ExprV::Index { obj: x, key: y }), pad) == s + "["@ + t + "]"@
            &&& expr_text((ExprV::Call { func: x, args }), pad) == s + "("@ + list + ")"@
            &&& expr_text((ExprV::MethodCall { obj: x, method: name, args }), pad) == s + ":"@
                + name + "("@ + list + ")"@
        }),
{
    reveal_with_fuel(expr_text, 2);
}

/// A block statement prints as a first line, its bodies one level further
/// in, and a closing line at its own level.
pub proof fn law_blocks_open_and_close(
    cond: ExprV,
    body: Seq<StmtV>,
    other: Seq<StmtV>,
    var: Seq<char>,
    vars: Seq<Seq<char>>,
    start: ExprV,
    stop: ExprV,
    step: ExprV,
    level: nat,
)
    ensures
        ({
            let pad = indentation(level);
            let inside = body_text(body, indentation(level + 1));
            let otherwise = body_text(other, indentation(level + 1));
            let (c, x, y, z) = (
                expr_text(cond, pad),
                expr_text(start, pad),
                expr_text(stop, pad),
                expr_text(step, pad),
            );
            let close = "\n"@ + pad + "end"@;
            let head = pad + "for "@ + var + " = "@ + x + ", "@ + y;
            &&& stmt_text((StmtV::While { cond, body }), pad) == pad + "while "@ + c + " do"@
                + inside + close
            &&& stmt_text((StmtV::Repeat { cond, body }), pad) == pad + "repeat"@ + inside + "\n"@
                + pad + "until "@ + c
            &&& stmt_text((StmtV::If { cond, then_body: body, else_body: None }), pad) == pad
                + "if "@ + c + " then"@ + inside + close
            &&& stmt_text((StmtV::If { cond, then_body: body, else_body: Some(other) }), pad) == pad
                + "if "@ + c + " then"@ + inside + "\n"@ + pad + "else"@ + otherwise + close
            &&& stmt_text((StmtV::For { var, start, stop, step: None, body }), pad) == head
                + " do"@ + inside + close
            &&& stmt_text((StmtV::For { var, start, stop, step: Some(step), body }), pad) == head
                + ", "@ + z + " do"@ + inside + close
            &&& stmt_text((StmtV::ForIn { vars, iterator: cond, body }), pad) == pad + "for "@
                + text::joined(vars, ", "@) + " in "@ + c + " do"@ + inside + close
        }),
{
    let pad = indentation(level);
    law_levels_indent_by_four(level);
    reveal_with_fuel(stmt_text, 2);
    let inside = body_text(body, deeper(pad));
    let otherwise = body_text(other, deeper(pad));
    let (c, x, y, z) = (
        expr_text(cond, pad),
        expr_text(start, pad),
        expr_text(stop, pad),
        expr_text(step, pad),
    );
    let close = "\n"@ + pad + "end"@;
    let head = pad + "for "@ + var + " = "@ + x + ", "@ + y;
    assert(stmt_text((StmtV::While { cond, body }), pad) =~= pad + "while "@ + c + " do"@ + inside
        + close);
    assert(stmt_text((StmtV::If { cond, then_body: body, else_body: None }), pad) =~= pad + "if "@
        + c + " then"@ + inside + close);
    assert(stmt_text((StmtV::If { cond, then_body: body, else_body: Some(other) }), pad) =~= pad
        + "if "@ + c + " then"@ + inside + "\n"@ + pad + "else"@ + otherwise + close);
    assert(stmt_text((StmtV::For { var, start, stop, step: None, body }), pad) =~= head + " do"@
        + inside + close);
    assert(stmt_text((StmtV::For { var, start, stop, step: Some(step), body }), pad) =~= head
        + ", "@ + z + " do"@ + inside + close);
    assert(stmt_text((StmtV::ForIn { vars, iterator: cond, body }), pad) =~= pad + "for "@
        + text::joined(vars, ", "@) + " in "@ + c + " do"@ + inside + close);
}

/// A statement of one line prints its parts in order.
pub proof fn law_lines_print_their_parts(
    name: Seq<char>,
    names: Seq<Seq<char>>,
    a: ExprV,
    b: ExprV,
    args: Seq<ExprV>,
    pad: Seq<char>,
)
    ensures
        ({
            let (x, y) = (expr_text(a, pad), expr_text(b, pad));
            let list = exprs_text(args, pad);
            &&& stmt_text((StmtV::LocalDecl { name, expr: a }), pad) == pad + "local "@ + name
                + " = "@ + x
            &&& stmt_text((StmtV::LocalDeclMulti { names, expr: a }), pad) == pad + "local "@
                + text::joined(names, ", "@) + " = "@ + x
            &&& stmt_text((StmtV::Assign { name, expr: a }), pad) == pad + name + " = "@ + x
            &&& stmt_text((StmtV::TableSet { target: a, value: b }), pad) == pad + x + " = "@ + y
            &&& stmt_text(StmtV::Return(Some(a)), pad) == pad + "return "@ + x
            &&& stmt_text((StmtV::Call { func: a, args }), pad) == pad + x + "("@ + list + ")"@
            &&& stmt_text((StmtV::MethodCall { obj: a, method: name, args }), pad) == pad + x
                + ":"@ + name + "("@ + list + ")"@
        }),
{
    reveal_with_fuel(stmt_text, 2);
}

/// Table literals and function literals print their entries and bodies
/// between their brackets.
pub proof fn law_literals_print_their_parts(
    entries: Seq<TableEntryV>,
    key: Seq<char>,
    a: ExprV,
    b: ExprV,
    params: Seq<Seq<char>>,
    body: Seq<StmtV>,
    level: nat,
)
    ensures
        ({
            let pad = indentation(level);
            let (x, y) = (expr_text(a, pad), expr_text(b, pad));
            &&& expr_text((ExprV::Table { entries }), pad) == "{"@ + entries_text(entries, pad)
                + "}"@
            &&& entry_text(TableEntryV::Array(a), pad) == x
            &&& entry_text(TableEntryV::HashStr(key, a), pad) == key + " = "@ + x
            &&& entry_text(TableEntryV::HashExpr(a, b), pad) == "["@ + x + "] = "@ + y
            &&& expr_text((ExprV::Function { params, body }), pad) == "function("@ + text::joined(
                params,
                ", "@,
            ) + ")"@ + body_text(body, indentation(level + 1)) + "\n"@ + pad + "end"@
        }),
{
    law_levels_indent_by_four(level);
    reveal_with_fuel(expr_text, 2);
    reveal_with_fuel(entry_text, 2);
}

/// A module is printed as the body of its last prototype, which has no
/// upvalues, in the frame layout that the header's fourth flag bit says.
pub proof fn law_modules_print_their_last_prototype(m: ModuleV)
    requires
        m.protos.len() > 0,
    ensures
        module_text(m) == match structure::recovered_proto(
            m,
            (m.protos.len() - 1) as nat,
            m.header.flags & 0x08 != 0,
            None,
        ) {
            Err(f) => Err(f),
            Ok(stmts) => Ok(chunk_text(stmts)),
        },
{
}

// ---- Printing --------------------------------------------------------------------

/// Append an operator.
fn push_symbol(out: &mut String, op: BinOpKind)
    ensures
        final(out)@ == old(out)@ + symbol(op),
{
    match op {
        BinOpKind::Add => out.append("+"),
        BinOpKind::Sub => out.append("-"),
        BinOpKind::Mul => out.append("*"),
        BinOpKind::Div => out.append("/"),
        BinOpKind::Mod => out.append("%"),
        BinOpKind::Pow => out.append("^"),
        BinOpKind::Concat => out.append(".."),
        BinOpKind::Equal => out.append("=="),
        BinOpKind::NotEqual => out.append("~="),
        BinOpKind::LessThan => out.append("<"),
        BinOpKind::GreaterThan => out.append(">"),
        BinOpKind::LessEqual => out.append("<="),
        BinOpKind::GreaterEqual => out.append(">="),
    }
}

/// The indentation one level further in.
fn indent_further(pad: &String) -> (out: String)
    ensures
        out@ == deeper(pad@),
{
    let mut out = pad.clone();
    out.append("    ");
    out
}

/// Append an expression.
#[verifier::rlimit(60)]
fn push_expr(out: &mut String, e: &Expr, pad: &String)
    ensures
        final(out)@ == old(out)@ + expr_text(e@, pad@),
    decreases e,
{
    let ghost start = out@;
    match e {
        Expr::Var(name) => {
            out.append(name.as_str());
        },
        Expr::Global(name) => {
            out.append(name.as_str());
        },
        Expr::Int(i) => {
            text::push_signed(out, *i as i64);
        },
        Expr::Float(bits) => {
            let digits = format_lua_number(*bits);
            out.append(digits.as_str());
        },
        Expr::Str(bytes) => {
            let decoded = text::decode_lossy(bytes.as_slice());
            let quoted = text::quote(decoded.as_str());
            out.append(quoted.as_str());
        },
        Expr::Nil => {
            out.append("nil");
        },
        Expr::True => {
            out.append("true");
        },
        Expr::False => {
            out.append("false");
        },
        Expr::BinOp { op, left, right } => {
            push_expr(out, left, pad);
            out.append(" ");
            push_symbol(out, *op);
            out.append(" ");
            push_expr(out, right, pad);
            assert(out@ =~= start + expr_text(e@, pad@));
        },
        Expr::Not(inner) => {
            out.append("not ");
            push_expr(out, inner, pad);
            assert(out@ =~= start + expr_text(e@, pad@));
        },
        Expr::And(left, right) => {
            push_expr(out, left, pad);
            out.append(" and ");
            push_expr(out, right, pad);
            assert(out@ =~= start + expr_text(e@, pad@));
        },
        Expr::Or(left, right) => {
            push_expr(out, left, pad);
            out.append(" or ");
            push_expr(out, right, pad);
            assert(out@ =~= start + expr_text(e@, pad@));
        },
        Expr::Call { func, args } => {
            push_expr(out, func, pad);
            out.append("(");
            push_exprs(out, args, pad);
            out.append(")");
            assert(out@ =~= start + expr_text(e@, pad@));
        },
        Expr::Field { obj, name } => {
            push_expr(out, obj, pad);
            out.append(".");
            out.append(name.as_str());
            assert(out@ =~= start + expr_text(e@, pad@));
        },
        Expr::Index { obj, key } => {
            push_expr(out, obj, pad);
            out.append("[");
            push_expr(out, key, pad);
            out.append("]");
            assert(out@ =~= start + expr_text(e@, pad@));
        },
        Expr::MethodCall { obj, method, args } => {
            push_expr(out, obj, pad);
            out.append(":");
            out.append(method.as_str());
            out.append("(");
            push_exprs(out, args, pad);
            out.append(")");
            assert(out@ =~= start + expr_text(e@, pad@));
        },
        Expr::Table { entries } => {
            out.append("{");
            push_entries(out, entries, pad);
            out.append("}");
            assert(out@ =~= start + expr_text(e@, pad@));
        },
        Expr::Len(inner) => {
            out.append("#");
            push_expr(out, inner, pad);
            assert(out@ =~= start + expr_text(e@, pad@));
        },
        Expr::Function { params, body } => {
            out.append("function(");
            text::push_joined(out, params, ", ");
            out.append(")");
            let inner = indent_further(pad);
            push_body(out, body, &inner);
            out.append("\n");
            out.append(pad.as_str());
            out.append("end");
            assert(out@ =~= start + expr_text(e@, pad@));
        },
        Expr::Vararg => {
            out.append("...");
        },
    }
}

/// Append expressions with commas between them.
fn push_exprs(out: &mut String, v: &Vec<Expr>, pad: &String)
    ensures
        final(out)@ == old(out)@ + exprs_text(ast::exprs_v(v@), pad@),
    decreases v,
{
    let ghost all = ast::exprs_v(v@);
    let ghost start = out@;
    let mut i: usize = 0;
    proof {
        ast::lemma_exprs_v(v@);
        assert(out@ =~= start + exprs_text(all.take(0), pad@));
    }
    while i < v.len()
        invariant
            i <= v@.len(),
            all == text::views(v@),
            out@ == start + exprs_text(all.take(i as int), pad@),
        decreases v@.len() - i,
    {
        proof {
            assert(decreases_to!(v => v@[i as int]));
            assert(all.take(i + 1).drop_last() =~= all.take(i as int));
            assert(all.take(i + 1).last() == v@[i as int]@);
        }
        if i > 0 {
            out.append(", ");
        }
        push_expr(out, &v[i], pad);
        assert(out@ =~= start + exprs_text(all.take(i + 1), pad@));
        i = i + 1;
    }
    assert(all.take(i as int) =~= all);
}

/// Append a table entry.
fn push_entry(out: &mut String, e: &TableEntry, pad: &String)
    ensures
        final(out)@ == old(out)@ + entry_text(e@, pad@),
    decreases e,
{
    let ghost start = out@;
    match e {
        TableEntry::Array(value) => {
            push_expr(out, value, pad);
        },
        TableEntry::HashStr(key, value) => {
            out.append(key.as_str());
            out.append(" = ");
            push_expr(out, value, pad);
        },
        TableEntry::HashExpr(key, value) => {
            out.append("[");
            push_expr(out, key, pad);
            out.append("] = ");
            push_expr(out, value, pad);
        },
    }
    assert(out@ =~= start + entry_text(e@, pad@));
}

/// Append table entries with commas between them.
fn push_entries(out: &mut String, v: &Vec<TableEntry>, pad: &String)
    ensures
        final(out)@ == old(out)@ + entries_text(ast::entries_v(v@), pad@),
    decreases v,
{
    let ghost all = ast::entries_v(v@);
    let ghost start = out@;
    let mut i: usize = 0;
    proof {
        ast::lemma_entries_v(v@);
        assert(out@ =~= start + entries_text(all.take(0), pad@));
    }
    while i < v.len()
        invariant
            i <= v@.len(),
            all == text::views(v@),
            out@ == start + entries_text(all.take(i as int), pad@),
        decreases v@.len() - i,
    {
        proof {
            assert(decreases_to!(v => v@[i as int]));
            assert(all.take(i + 1).drop_last() =~= all.take(i as int));
            assert(all.take(i + 1).last() == v@[i as int]@);
        }
        if i > 0 {
            out.append(", ");
        }
        push_entry(out, &v[i], pad);
        assert(out@ =~= start + entries_text(all.take(i + 1), pad@));
        i = i + 1;
    }
    assert(all.take(i as int) =~= all);
}

/// Append the end of a block: a new line with `end`.
fn push_end(out: &mut String, pad: &String)
    ensures
        final(out)@ == old(out)@ + "\n"@ + pad@ + "end"@,
{
    out.append("\n");
    out.append(pad.as_str());
    out.append("end");
}

/// Append an `if`.
fn push_if(out: &mut String, s: &Stmt, pad: &String)
    requires
        s is If,
    ensures
        final(out)@ == old(out)@ + stmt_text(s@, pad@),
    decreases s, 0int,
{
    let ghost begin = out@;
    let inner = indent_further(pad);
    if let Stmt::If { cond, then_body, else_body } = s {
        out.append(pad.as_str());
        out.append("if ");
        push_expr(out, cond, pad);
        out.append(" then");
        push_body(out, then_body, &inner);
        if let Some(b) = else_body {
            out.append("\n");
            out.append(pad.as_str());
            out.append("else");
            push_body(out, b, &inner);
        }
        push_end(out, pad);
        assert(out@ =~= begin + stmt_text(s@, pad@));
    }
}

/// Append a numeric for.
fn push_for(out: &mut String, s: &Stmt, pad: &String)
    requires
        s is For,
    ensures
        final(out)@ == old(out)@ + stmt_text(s@, pad@),
    decreases s, 0int,
{
    let ghost begin = out@;
    let inner = indent_further(pad);
    if let Stmt::For { var, start, stop, step, body } = s {
        out.append(pad.as_str());
        out.append("for ");
        out.append(var.as_str());
        out.append(" = ");
        push_expr(out, start, pad);
        out.append(", ");
        push_expr(out, stop, pad);
        // No step when it is the default of 1.
        if let Some(e) = step {
            out.append(", ");
            push_expr(out, e, pad);
        }
        out.append(" do");
        push_body(out, body, &inner);
        push_end(out, pad);
        assert(out@ =~= begin + stmt_text(s@, pad@));
    }
}

/// Append a generic for.
fn push_for_in(out: &mut String, s: &Stmt, pad: &String)
    requires
        s is ForIn,
    ensures
        final(out)@ == old(out)@ + stmt_text(s@, pad@),
    decreases s, 0int,
{
    let ghost begin = out@;
    let inner = indent_further(pad);
    if let Stmt::ForIn { vars, iterator, body } = s {
        out.append(pad.as_str());
        out.append("for ");
        text::push_joined(out, vars, ", ");
        out.append(" in ");
        push_expr(out, iterator, pad);
        out.append(" do");
        push_body(out, body, &inner);
        push_end(out, pad);
        assert(out@ =~= begin + stmt_text(s@, pad@));
    }
}

/// Append a `while`.
fn push_while(out: &mut String, s: &Stmt, pad: &String)
    requires
        s is While,
    ensures
        final(out)@ == old(out)@ + stmt_text(s@, pad@),
    decreases s, 0int,
{
    let ghost begin = out@;
    let inner = indent_further(pad);
    if let Stmt::While { cond, body } = s {
        out.append(pad.as_str());
        out.append("while ");
        push_expr(out, cond, pad);
        out.append(" do");
        push_body(out, body, &inner);
        push_end(out, pad);
        assert(out@ =~= begin + stmt_text(s@, pad@));
    }
}

/// Append a `repeat`, whose condition trails the body.
fn push_repeat(out: &mut String, s: &Stmt, pad: &String)
    requires
        s is Repeat,
    ensures
        final(out)@ == old(out)@ + stmt_text(s@, pad@),
    decreases s, 0int,
{
    let ghost begin = out@;
    let inner = indent_further(pad);
    if let Stmt::Repeat { cond, body } = s {
        out.append(pad.as_str());
        out.append("repeat");
        push_body(out, body, &inner);
        out.append("\n");
        out.append(pad.as_str());
        out.append("until ");
        push_expr(out, cond, pad);
        assert(out@ =~= begin + stmt_text(s@, pad@));
    }
}

/// Append a statement.
#[verifier::rlimit(60)]
fn push_stmt(out: &mut String, s: &Stmt, pad: &String)
    ensures
        final(out)@ == old(out)@ + stmt_text(s@, pad@),
    decreases s, 1int,
{
    let ghost start = out@;
    match s {
        Stmt::LocalDecl { name, expr } => {
            out.append(pad.as_str());
            out.append("local ");
            out.append(name.as_str());
            out.append(" = ");
            push_expr(out, expr, pad);
            assert(out@ =~= start + stmt_text(s@, pad@));
        },
        Stmt::Assign { name, expr } => {
            out.append(pad.as_str());
            out.append(name.as_str());
            out.append(" = ");
            push_expr(out, expr, pad);
            assert(out@ =~= start + stmt_text(s@, pad@));
        },
        Stmt::Return(value) => {
            if let Some(e) = value {
                out.append(pad.as_str());
                out.append("return ");
                push_expr(out, e, pad);
            }
            assert(out@ =~= start + stmt_text(s@, pad@));
        },
        Stmt::Call { func, args } => {
            out.append(pad.as_str());
            push_expr(out, func, pad);
            out.append("(");
            push_exprs(out, args, pad);
            out.append(")");
            assert(out@ =~= start + stmt_text(s@, pad@));
        },
        Stmt::MethodCall { obj, method, args } => {
            out.append(pad.as_str());
            push_expr(out, obj, pad);
            out.append(":");
            out.append(method.as_str());
            out.append("(");
            push_exprs(out, args, pad);
            out.append(")");
            assert(out@ =~= start + stmt_text(s@, pad@));
        },
        Stmt::TableSet { target, value } => {
            out.append(pad.as_str());
            push_expr(out, target, pad);
            out.append(" = ");
            push_expr(out, value, pad);
            assert(out@ =~= start + stmt_text(s@, pad@));
        },
        Stmt::LocalDeclMulti { names, expr } => {
            out.append(pad.as_str());
            out.append("local ");
            text::push_joined(out, names, ", ");
            out.append(" = ");
            push_expr(out, expr, pad);
            assert(out@ =~= start + stmt_text(s@, pad@));
        },
        Stmt::If { .. } => push_if(out, s, pad),
        Stmt::For { .. } => push_for(out, s, pad),
        Stmt::ForIn { .. } => push_for_in(out, s, pad),
        Stmt::While { .. } => push_while(out, s, pad),
        Stmt::Repeat { .. } => push_repeat(out, s, pad),
    }
}

/// Append the statements of a body.
fn push_body(out: &mut String, v: &Vec<Stmt>, pad: &String)
    ensures
        final(out)@ == old(out)@ + body_text(ast::stmts_v(v@), pad@),
    decreases v, 2int,
{
    let ghost all = ast::stmts_v(v@);
    let ghost start = out@;
    let mut i: usize = 0;
    proof {
        ast::lemma_stmts_v(v@);
        assert(out@ =~= start + body_text(all.take(0), pad@));
    }
    while i < v.len()
        invariant
            i <= v@.len(),
            all == text::views(v@),
            out@ == start + body_text(all.take(i as int), pad@),
        decreases v@.len() - i,
    {
        proof {
            assert(decreases_to!(v => v@[i as int]));
            assert(all.take(i + 1).drop_last() =~= all.take(i as int));
            assert(all.take(i + 1).last() == v@[i as int]@);
        }
        if !matches!(&v[i], Stmt::Return(None)) {
            out.append("\n");
            push_stmt(out, &v[i], pad);
        }
        assert(out@ =~= start + body_text(all.take(i + 1), pad@));
        i = i + 1;
    }
    assert(all.take(i as int) =~= all);
}

/// The indentation of a level.
fn make_pad(indent: usize) -> (pad: String)
    requires
        indent * 4 <= usize::MAX,
    ensures
        pad@ == indentation(indent as nat),
{
    let mut pad = String::new();
    text::push_spaces(&mut pad, indent * INDENT_SPACES);
    assert(pad@ =~= indentation(indent as nat));
    pad
}

/// Format one statement at the given indent level. Returns `None` for
/// `Return(None)` (implicit return: emits no line).
pub fn format_stmt(stmt: &Stmt, indent: usize) -> (out: Option<String>)
    requires
        indent * 4 <= usize::MAX,
    ensures
        match out {
            Some(line) => !silent(stmt@) && line@ == stmt_text(stmt@, indentation(indent as nat)),
            None => silent(stmt@),
        },
{
    if matches!(stmt, Stmt::Return(None)) {
        return None;
    }
    let pad = make_pad(indent);
    let mut out = String::new();
    push_stmt(&mut out, stmt, &pad);
    assert(out@ =~= stmt_text(stmt@, pad@));
    Some(out)
}

/// Format an expression as Lua source. `indent` is the statement-level
/// indent of the statement it stands in.
///
/// Nested arithmetic is emitted without parenthesization. This works
/// whenever Lua's precedence matches the bytecode's evaluation order.
pub fn format_expr(expr: &Expr, indent: usize) -> (out: String)
    requires
        indent * 4 <= usize::MAX,
    ensures
        out@ == expr_text(expr@, indentation(indent as nat)),
{
    let pad = make_pad(indent);
    let mut out = String::new();
    push_expr(&mut out, expr, &pad);
    assert(out@ =~= expr_text(expr@, pad@));
    out
}

/// Format a sequence of statements as Lua source. Statements are joined
/// by `\n`; `Return(None)` emits nothing. No trailing newline.
pub fn emit_ast(stmts: &[Stmt]) -> (out: String)
    ensures
        out@ == chunk_text(ast::stmts_v(stmts@)),
{
    let ghost all = ast::stmts_v(stmts@);
    let pad = String::new();
    let mut lines: Vec<String> = Vec::new();
    let mut i: usize = 0;
    proof {
        ast::lemma_stmts_v(stmts@);
        assert(pad@ =~= seq![]);
        assert(text::views(lines@) =~= chunk_lines(all.take(0)));
    }
    while i < stmts.len()
        invariant
            i <= stmts@.len(),
            pad@ == Seq::<char>::empty(),
            all == text::views(stmts@),
            text::views(lines@) == chunk_lines(all.take(i as int)),
        decreases stmts@.len() - i,
    {
        let ghost before = text::views(lines@);
        proof {
            assert(all.take(i + 1).drop_last() =~= all.take(i as int));
            assert(all.take(i + 1).last() == stmts@[i as int]@);
        }
        if !matches!(&stmts[i], Stmt::Return(None)) {
            let mut line = String::new();
            push_stmt(&mut line, &stmts[i], &pad);
            assert(line@ =~= stmt_text(stmts@[i as int]@, seq![]));
            lines.push(line);
            assert(text::views(lines@) =~= before.push(line@));
        }
        i = i + 1;
    }
    assert(all.take(i as int) =~= all);
    let mut out = String::new();
    text::push_joined(&mut out, &lines, "\n");
    assert(out@ =~= chunk_text(all));
    out
}

/// Emit Lua source from a parsed module.
///
/// Builds the CFG for the main proto, recovers the AST, then formats the
/// AST to a source string. Returns [`DecompilerError::NotImplemented`]
/// for any input the recovery doesn't model.
pub fn emit_module(module: &Module) -> (res: Result<String, DecompilerError>)
    requires
        module.protos@.len() > 0,
        cfg::module_fits(*module),
    ensures
        crate::yields(res, module_text(module@)),
{
    let main_idx: usize = module.protos.len() - 1;
    let main = &module.protos[main_idx];
    assert(module@.protos[main_idx as int] == main@);
    let graph = Cfg::build(main);
    proof {
        cfg::law_built_graph_fits(main.insts@);
    }
    let ast = recover(module, main_idx, &graph, module.header.is_fr2(), None)?;
    Ok(emit_ast(ast.as_slice()))
}

} // verus!
