//! luadejit-core: a LuaJIT bytecode decompiler library.
//!
//! The pipeline is: parse bytecode ([`ir::Module::from_bytes`]), build
//! the control flow graph ([`cfg::Cfg::build`]), recover structure
//! ([`structure::recover`]), and emit source ([`emit::emit_module`]).
//! Every stage carries a contract that says exactly what it returns.

use vstd::prelude::*;
use vstd::string::StringExecFns;

use frontend::encoding;
use frontend::encoding::ModuleSource;
use frontend::grammar;
use frontend::reader;
use ir::Module;

pub mod cfg;
pub mod emit;
pub mod frontend;
pub mod ir;
pub mod number;
pub mod structure;
pub mod text;

verus! {

/// What bytecode decompiles to.
pub open spec fn decompiled(bytes: Seq<u8>) -> Result<Seq<char>, Fault> {
    match grammar::scan_module(bytes) {
        Err(f) => Err(f),
        Ok(m) => emit::module_text(m),
    }
}

/// Decompile LuaJIT bytecode bytes into Lua source code.
///
/// Returns [`DecompilerError::NotImplemented`] for a shape that the
/// recovery does not model and [`DecompilerError::InvalidBytecode`] for
/// malformed bytecode, which never gets as far as the recovery.
pub fn decompile(bytes: &[u8]) -> (res: Result<String, DecompilerError>)
    ensures
        yields(res, decompiled(bytes@)),
        grammar::scan_module(bytes@) is Err ==> (res matches Err(
            DecompilerError::InvalidBytecode { offset, .. },
        ) && offset <= bytes@.len()),
{
    let module = Module::from_bytes(bytes)?;
    let source = emit::emit_module(&module)?;
    Ok(source)
}

/// The dump of a module decompiles to the source of the module, whatever
/// follows it.
pub proof fn law_dump_decompiles_as_its_module(b: Seq<u8>, m: ModuleSource)
    requires
        encoding::module_fits(m),
        reader::stands_at(b, 0, encoding::module_code(m)),
    ensures
        decompiled(b) == emit::module_text(encoding::module_read(m)),
{
    encoding::law_module_round_trip(b, m);
}

/// Input that does not start with the magic bytes is refused, and says
/// what it starts with.
pub proof fn law_other_input_is_refused(b: Seq<u8>)
    requires
        b.len() >= 3,
        b[0] != 0x1b || b[1] != 0x4c || b[2] != 0x4a,
    ensures
        decompiled(b) == Err::<Seq<char>, Fault>(
            Fault::InvalidBytecode { offset: 0, reason: grammar::magic_reason(b.take(3)) },
        ),
{
    assert(b.take(3) =~= b.subrange(0, 3));
}

/// Errors that can occur during decompilation.
#[derive(Debug)]
pub enum DecompilerError {
    /// The input is well-formed, but its shape is not modeled.
    NotImplemented,
    /// The input is not well-formed LuaJIT bytecode. `offset` is the
    /// absolute byte position where parsing failed.
    InvalidBytecode { offset: usize, reason: String },
}

/// The mathematical value of a [`DecompilerError`].
pub enum Fault {
    NotImplemented,
    InvalidBytecode { offset: int, reason: Seq<char> },
}

impl View for DecompilerError {
    type V = Fault;

    open spec fn view(&self) -> Fault {
        match *self {
            DecompilerError::NotImplemented => Fault::NotImplemented,
            DecompilerError::InvalidBytecode { offset, reason } => Fault::InvalidBytecode {
                offset: offset as int,
                reason: reason@,
            },
        }
    }
}

/// Whether an executable result has the given mathematical outcome:
/// both succeed with the same value, or both fail with the same fault.
pub open spec fn yields<T: View>(
    res: Result<T, DecompilerError>,
    out: Result<T::V, Fault>,
) -> bool {
    match (res, out) {
        (Ok(value), Ok(expected)) => value@ == expected,
        (Err(error), Err(fault)) => error@ == fault,
        _ => false,
    }
}

/// The text shown to a user for a fault.
pub open spec fn fault_message(fault: Fault) -> Seq<char> {
    match fault {
        Fault::NotImplemented => "decompile not implemented yet"@,
        Fault::InvalidBytecode { offset, reason } => "invalid bytecode at offset "@
            + text::decimal(offset as nat) + ": "@ + reason,
    }
}

/// The text of a fault names where it is and ends in its reason.
pub proof fn law_messages_name_the_offset(offset: nat, reason: Seq<char>) -> (numeral: Seq<char>)
    ensures
        fault_message((Fault::InvalidBytecode { offset: offset as int, reason }))
            == "invalid bytecode at offset "@ + numeral + ": "@ + reason,
        text::numeral_value(numeral, 10) == offset,
{
    text::law_decimal_reads_back(offset);
    text::decimal(offset)
}

impl DecompilerError {
    /// The text shown to a user.
    pub fn message(&self) -> (m: String)
        ensures
            m@ == fault_message(self@),
    {
        match self {
            DecompilerError::NotImplemented => String::from_str("decompile not implemented yet"),
            DecompilerError::InvalidBytecode { offset, reason } => {
                let mut m = String::from_str("invalid bytecode at offset ");
                text::push_decimal(&mut m, *offset as u64);
                m.append(": ");
                m.append(reason.as_str());
                m
            },
        }
    }
}

} // verus!
