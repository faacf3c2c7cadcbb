//! Frontend: parse LuaJIT 2.x bytecode into a [`Module`] (defined in
//! [`crate::ir`]).
//!
//! It is capable of decoding any well-formed LuaJIT 2.x dump; what the
//! rest of the pipeline *does* with a parsed module is later stages'
//! concern.
//!
//! The [`grammar`] states the format, and [`layout`] which byte of a dump
//! means what. This module is the parser: the [`Reader`] cursor, the
//! [`Module::from_bytes`] entry point, the [`Instruction::read`]
//! single-instruction decoder, and the `parse_*` and `read_*` functions.

use vstd::prelude::*;
use vstd::slice::slice_to_vec;
use vstd::string::StringExecFns;

use crate::cfg;
use crate::ir;
use crate::ir::{
    DebugInfo, GcConst, Instruction, KtabK, Module, ModuleHeader, NumConst, Opcode, Proto,
    TableConst, UpvalDesc, VarInfo, VarInfoV, VarKind,
};
use crate::ir::{
    FLAGS_KNOWN_MASK, FLAG_BE, FLAG_STRIP, PROTO_CHILD, PROTO_FFI, PROTO_VARARG, VAR_STR,
};
use crate::text;
use crate::DecompilerError;

pub mod encoding;
pub mod grammar;
pub mod layout;
pub mod reader;

pub use grammar::ProtoHead;
pub use reader::Reader;

verus! {

// ---- Entry points ------------------------------------------------------------

impl Module {
    /// Parse a complete bytecode module. Malformed input is always
    /// answered with [`DecompilerError::InvalidBytecode`] and an offset
    /// within the input.
    pub fn from_bytes(bytes: &[u8]) -> (res: Result<Module, DecompilerError>)
        ensures
            crate::yields(res, grammar::scan_module(bytes@)),
            res matches Err(e) ==> grammar::fault_within(e@, bytes@.len() as int),
            res matches Ok(m) ==> m.protos@.len() > 0 && cfg::module_fits(m),
    {
        let mut reader = Reader::new(bytes);
        let header = parse_header(&mut reader)?;
        let protos = parse_protos(&mut reader, header.flags)?;
        Ok(Module { header, protos })
    }
}

impl Instruction {
    /// Read one 4-byte instruction from the reader. The opcode
    /// determines whether the remaining two bytes are interpreted as
    /// (C, B) for ABC or as a little-endian 16-bit D for AD.
    pub fn read(reader: &mut Reader<'_>) -> (res: Result<Self, DecompilerError>)
        requires
            old(reader).wf(),
        ensures
            grammar::reads(
                *old(reader),
                *final(reader),
                res,
                grammar::scan_inst(old(reader).bytes(), old(reader).at()),
            ),
    {
        let raw = reader.read_bytes(4)?;
        let a: u8 = raw[1];
        let op = Opcode::from_byte(raw[0], reader.pos() - 4)?;
        proof {
            law_opcode_round_trip(op);
        }
        if op.is_abc() {
            Ok(Instruction { op, a, b_or_d: raw[3] as u32, c: raw[2] })
        } else {
            Ok(Instruction { op, a, b_or_d: raw[2] as u32 + 0x100 * (raw[3] as u32), c: 0 })
        }
    }
}

/// Two opcodes with the same byte are the same opcode.
pub proof fn law_opcode_bytes_differ(a: Opcode, b: Opcode)
    requires
        ir::opcode_byte(a) == ir::opcode_byte(b),
    ensures
        a == b,
{
}

/// The opcode of an opcode's byte is that opcode.
pub proof fn law_opcode_round_trip(op: Opcode)
    ensures
        grammar::opcode_of(ir::opcode_byte(op)) == op,
        ir::opcode_byte(op) <= ir::LAST_OPCODE,
{
    law_opcode_bytes_differ(op, grammar::opcode_of(ir::opcode_byte(op)));
}

/// The four bytes of an instruction: opcode, `A`, then `C` and `B`, or
/// `D` with its low byte first.
pub open spec fn inst_code(inst: Instruction) -> Seq<u8> {
    let op = ir::opcode_byte(inst.op);
    if ir::op_is_abc(inst.op) {
        seq![op, inst.a, inst.c, inst.b_or_d as u8]
    } else {
        seq![op, inst.a, (inst.b_or_d % 0x100) as u8, (inst.b_or_d / 0x100) as u8]
    }
}

/// Whether an instruction's operands fit its format.
pub open spec fn operands_fit(inst: Instruction) -> bool {
    if ir::op_is_abc(inst.op) {
        inst.b_or_d < 0x100
    } else {
        inst.b_or_d < 0x1_0000 && inst.c == 0
    }
}

/// Reading the four bytes of an instruction gives it back.
pub proof fn law_instruction_round_trip(b: Seq<u8>, p: int, inst: Instruction)
    requires
        operands_fit(inst),
        reader::stands_at(b, p, inst_code(inst)),
    ensures
        grammar::scan_inst(b, p) == grammar::done(inst, p + 4),
{
    law_opcode_round_trip(inst.op);
    let raw = b.subrange(p, p + 4);
    assert(raw == inst_code(inst));
}

/// Whether opcodes are numbered in a row, from `first` up.
pub open spec fn in_a_row(ops: Seq<Opcode>, first: int) -> bool {
    forall|i: int| 0 <= i < ops.len() ==> ir::opcode_byte(#[trigger] ops[i]) == first + i
}

/// LuaJIT numbers its instructions in this order, group by group.
pub proof fn law_instruction_set_order()
    ensures
        // Comparisons and tests.
        in_a_row(
            seq![
                Opcode::Islt,
                Opcode::Isge,
                Opcode::Isle,
                Opcode::Isgt,
                Opcode::Iseqv,
                Opcode::Isnev,
                Opcode::Iseqs,
                Opcode::Isnes,
                Opcode::Iseqn,
                Opcode::Isnen,
                Opcode::Iseqp,
                Opcode::Isnep,
                Opcode::Istc,
                Opcode::Isfc,
                Opcode::Ist,
                Opcode::Isf,
                Opcode::Istype,
                Opcode::Isnum,
            ],
            0x00,
        ),
        // Moves and unary operators.
        in_a_row(
            seq![
                Opcode::Mov,
                Opcode::Not,
                Opcode::Unm,
                Opcode::Len,
            ],
            0x12,
        ),
        // Arithmetic.
        in_a_row(
            seq![
                Opcode::Addvn,
                Opcode::Subvn,
                Opcode::Mulvn,
                Opcode::Divvn,
                Opcode::Modvn,
                Opcode::Addnv,
                Opcode::Subnv,
                Opcode::Mulnv,
                Opcode::Divnv,
                Opcode::Modnv,
                Opcode::Addvv,
                Opcode::Subvv,
                Opcode::Mulvv,
                Opcode::Divvv,
                Opcode::Modvv,
                Opcode::Pow,
                Opcode::Cat,
            ],
            0x16,
        ),
        // Constants.
        in_a_row(
            seq![
                Opcode::Kstr,
                Opcode::Kcdata,
                Opcode::Kshort,
                Opcode::Knum,
                Opcode::Kpri,
                Opcode::Knil,
            ],
            0x27,
        ),
        // Upvalues and functions.
        in_a_row(
            seq![
                Opcode::Uget,
                Opcode::Usetv,
                Opcode::Usets,
                Opcode::Usetn,
                Opcode::Usetp,
                Opcode::Uclo,
                Opcode::Fnew,
            ],
            0x2d,
        ),
        // Tables and globals.
        in_a_row(
            seq![
                Opcode::Tnew,
                Opcode::Tdup,
                Opcode::Gget,
                Opcode::Gset,
                Opcode::Tgetv,
                Opcode::Tgets,
                Opcode::Tgetb,
                Opcode::Tgetr,
                Opcode::Tsetv,
                Opcode::Tsets,
                Opcode::Tsetb,
                Opcode::Tsetm,
                Opcode::Tsetr,
            ],
            0x34,
        ),
        // Calls, varargs and iterators.
        in_a_row(
            seq![
                Opcode::Callm,
                Opcode::Call,
                Opcode::Callmt,
                Opcode::Callt,
                Opcode::Iterc,
                Opcode::Itern,
                Opcode::Varg,
                Opcode::Isnext,
            ],
            0x41,
        ),
        // Returns.
        in_a_row(
            seq![
                Opcode::Retm,
                Opcode::Ret,
                Opcode::Ret0,
                Opcode::Ret1,
            ],
            0x49,
        ),
        // Loops and jumps.
        in_a_row(
            seq![
                Opcode::Fori,
                Opcode::Jfori,
                Opcode::Forl,
                Opcode::Iforl,
                Opcode::Jforl,
                Opcode::Iterl,
                Opcode::Iiterl,
                Opcode::Jiterl,
                Opcode::Loop,
                Opcode::Iloop,
                Opcode::Jloop,
                Opcode::Jmp,
            ],
            0x4d,
        ),
        // Function headers.
        in_a_row(
            seq![
                Opcode::Funcf,
                Opcode::Ifuncf,
                Opcode::Jfuncf,
                Opcode::Funcv,
                Opcode::Ifuncv,
                Opcode::Jfuncv,
                Opcode::Funcc,
                Opcode::Funccw,
            ],
            0x59,
        ),
{
}

/// The instructions with three byte operands are those of arithmetic,
/// table access, calls, iterator calls and varargs; all others have one
/// byte and one two-byte operand.
pub proof fn law_operand_layouts(op: Opcode)
    ensures
        ({
            let byte = ir::opcode_byte(op);
            ir::op_is_abc(op) <==> {
                ||| 0x16 <= byte <= 0x26
                ||| 0x38 <= byte <= 0x3e
                ||| 0x40 <= byte <= 0x42
                ||| 0x45 <= byte <= 0x47
            }
        }),
{
}

/// The flag bits of a dump and of a prototype, and the two parts of an
/// upvalue descriptor.
pub proof fn law_flag_bits(flags: u32, proto_flags: u8, uv: ir::UpvalDesc)
    ensures
        ir::flags_stripped(flags) <==> flags & 0x02 != 0,
        ir::flags_fr2(flags) <==> flags & 0x08 != 0,
        ir::FLAG_BE == 0x01,
        grammar::header_flags_known(flags) <==> flags & 0x7fff_fff0 == 0,
        ir::proto_vararg(proto_flags) <==> proto_flags & 0x02 != 0,
        grammar::proto_flags_known(proto_flags) <==> proto_flags & 0xf8 == 0,
        ir::upval_open(uv) <==> uv.raw >= 0x8000,
        ir::upval_index(uv) == uv.raw % 0x4000,
{
    assert(flags & !(0x0fu32 | 0x8000_0000u32) == flags & 0x7fff_fff0) by (bit_vector);
    assert(proto_flags & !(0x01u8 | 0x02u8 | 0x04u8) == proto_flags & 0xf8) by (bit_vector);
    let raw = uv.raw;
    assert(raw & 0x8000 != 0 <==> raw >= 0x8000) by (bit_vector);
    assert(raw & 0x3fff == raw % 0x4000) by (bit_vector);
}

/// The header in front of a prototype's instructions has the frame size
/// in A, and says whether the prototype is vararg.
pub proof fn law_header_instruction(h: grammar::ProtoHead)
    ensures
        grammar::header_inst(h).a == h.framesize,
        grammar::header_inst(h).op == if h.flags & 0x02 != 0 {
            Opcode::Funcv
        } else {
            Opcode::Funcf
        },
{
}

/// A variable's type byte below 7 is one of the six kinds of internal
/// loop variable, which has no name; any other byte is the first of its
/// name.
pub proof fn law_variable_type_bytes(b: Seq<u8>, p: int, t: u8)
    ensures
        t < 7 ==> grammar::scan_var_name(b, p, t).pos == p && (grammar::scan_var_name(
            b,
            p,
            t,
        ).out matches Ok((kind, name)) && name is None && kind != VarKind::Name),
        t >= 7 ==> (grammar::scan_var_name(b, p, t).out matches Ok((kind, name)) ==> kind
            == VarKind::Name && name is Some && name->Some_0[0] == t as char),
{
}

/// Only input that starts with `ESC L J` and version 2 is a dump.
pub proof fn law_dumps_start_with_magic(b: Seq<u8>)
    requires
        grammar::scan_module(b) is Ok,
    ensures
        b.len() >= 4,
        b[0] == 0x1b,
        b[1] == 0x4c,
        b[2] == 0x4a,
        b[3] == 0x02,
{
}

// ---- Constants -----------------------------------------------------------------

/// Read a 64-bit value as two LEB128s, low half first.
fn read_halves(reader: &mut Reader<'_>) -> (res: Result<u64, DecompilerError>)
    requires
        old(reader).wf(),
    ensures
        grammar::reads(
            *old(reader),
            *final(reader),
            res,
            grammar::scan_halves(old(reader).bytes(), old(reader).at()),
        ),
{
    let lo = reader.read_uleb128()?;
    let hi = reader.read_uleb128()?;
    Ok(lo as u64 + 0x1_0000_0000 * (hi as u64))
}

/// Read a single table key or value.
fn read_ktabk(reader: &mut Reader<'_>) -> (res: Result<KtabK, DecompilerError>)
    requires
        old(reader).wf(),
    ensures
        grammar::reads(
            *old(reader),
            *final(reader),
            res,
            grammar::scan_ktabk(old(reader).bytes(), old(reader).at()),
        ),
{
    let type_tag = reader.read_uleb128()?;
    match type_tag {
        0 => Ok(KtabK::Nil),
        1 => Ok(KtabK::False),
        2 => Ok(KtabK::True),
        3 => {
            let n = reader.read_uleb128()?;
            Ok(KtabK::Int(n as u64))
        },
        4 => {
            let bits = read_halves(reader)?;
            Ok(KtabK::Num(bits))
        },
        n => {
            let bytes = reader.read_bytes((n - 5) as usize)?;
            Ok(KtabK::Str(slice_to_vec(bytes)))
        },
    }
}

/// Read a hash entry of a template table.
fn read_ktab_pair(reader: &mut Reader<'_>) -> (res: Result<(KtabK, KtabK), DecompilerError>)
    requires
        old(reader).wf(),
    ensures
        grammar::reads(
            *old(reader),
            *final(reader),
            res,
            grammar::scan_ktab_pair(old(reader).bytes(), old(reader).at()),
        ),
{
    let key = read_ktabk(reader)?;
    let value = read_ktabk(reader)?;
    Ok((key, value))
}

/// Read the array part of a template table.
fn read_table_array(reader: &mut Reader<'_>, n: u32) -> (res: Result<Vec<KtabK>, DecompilerError>)
    requires
        old(reader).wf(),
    ensures
        grammar::reads_all(
            *old(reader),
            *final(reader),
            res,
            grammar::scan_many(
                grammar::ktabks(old(reader).bytes()),
                old(reader).at(),
                n as nat,
                seq![],
            ),
        ),
{
    let mut out: Vec<KtabK> = Vec::new();
    let ghost one = grammar::ktabks(reader.bytes());
    proof {
        assert(text::views(out@) =~= seq![]);
    }
    let mut i: u32 = 0;
    while i < n
        invariant
            i <= n,
            reader.wf(),
            reader.bytes() == old(reader).bytes(),
            one == grammar::ktabks(old(reader).bytes()),
            grammar::scan_many(one, old(reader).at(), n as nat, seq![]) == grammar::scan_many(
                one,
                reader.at(),
                (n - i) as nat,
                text::views(out@),
            ),
        decreases n - i,
    {
        let ghost before = text::views(out@);
        let item = read_ktabk(reader)?;
        out.push(item);
        i = i + 1;
        assert(text::views(out@) =~= before.push(item@));
    }
    Ok(out)
}

/// Read the hash part of a template table.
fn read_table_hash(
    reader: &mut Reader<'_>,
    n: u32,
) -> (res: Result<Vec<(KtabK, KtabK)>, DecompilerError>)
    requires
        old(reader).wf(),
    ensures
        grammar::reads_all(
            *old(reader),
            *final(reader),
            res,
            grammar::scan_many(
                grammar::ktab_pairs(old(reader).bytes()),
                old(reader).at(),
                n as nat,
                seq![],
            ),
        ),
{
    let mut out: Vec<(KtabK, KtabK)> = Vec::new();
    let ghost one = grammar::ktab_pairs(reader.bytes());
    proof {
        assert(text::views(out@) =~= seq![]);
    }
    let mut i: u32 = 0;
    while i < n
        invariant
            i <= n,
            reader.wf(),
            reader.bytes() == old(reader).bytes(),
            one == grammar::ktab_pairs(old(reader).bytes()),
            grammar::scan_many(one, old(reader).at(), n as nat, seq![]) == grammar::scan_many(
                one,
                reader.at(),
                (n - i) as nat,
                text::views(out@),
            ),
        decreases n - i,
    {
        let ghost before = text::views(out@);
        let item = read_ktab_pair(reader)?;
        out.push(item);
        i = i + 1;
        assert(text::views(out@) =~= before.push(item@));
    }
    Ok(out)
}

/// Read a template table.
fn read_table(reader: &mut Reader<'_>) -> (res: Result<TableConst, DecompilerError>)
    requires
        old(reader).wf(),
    ensures
        grammar::reads(
            *old(reader),
            *final(reader),
            res,
            grammar::scan_table(old(reader).bytes(), old(reader).at()),
        ),
{
    let narray = reader.read_uleb128()?;
    let nhash = reader.read_uleb128()?;
    let array = read_table_array(reader, narray)?;
    let hash = read_table_hash(reader, nhash)?;
    Ok(TableConst { array, hash })
}

/// Read a GC constant.
fn read_gc_const(reader: &mut Reader<'_>) -> (res: Result<GcConst, DecompilerError>)
    requires
        old(reader).wf(),
    ensures
        grammar::reads(
            *old(reader),
            *final(reader),
            res,
            grammar::scan_gc_const(old(reader).bytes(), old(reader).at()),
        ),
{
    let type_tag = reader.read_uleb128()?;
    match type_tag {
        // KGC_CHILD: no payload.
        0 => Ok(GcConst::Child),
        // KGC_TAB: template table.
        1 => {
            let table = read_table(reader)?;
            Ok(GcConst::Tab(table))
        },
        // KGC_I64 / KGC_U64: two ULEB128s forming a 64-bit value.
        2 => {
            let v = read_halves(reader)?;
            Ok(GcConst::I64(v))
        },
        3 => {
            let v = read_halves(reader)?;
            Ok(GcConst::U64(v))
        },
        // KGC_COMPLEX: real and imaginary doubles, each as 2x ULEB128.
        4 => {
            let re = read_halves(reader)?;
            let im = read_halves(reader)?;
            Ok(GcConst::Complex { real: re, imag: im })
        },
        // KGC_STR: string of length (type - 5).
        n => {
            let bytes = reader.read_bytes((n - 5) as usize)?;
            Ok(GcConst::Str(slice_to_vec(bytes)))
        },
    }
}

/// Read the GC constants, in file order.
fn read_gc_consts(reader: &mut Reader<'_>, n: u32) -> (res: Result<Vec<GcConst>, DecompilerError>)
    requires
        old(reader).wf(),
    ensures
        grammar::reads_all(
            *old(reader),
            *final(reader),
            res,
            grammar::scan_many(
                grammar::gc_consts(old(reader).bytes()),
                old(reader).at(),
                n as nat,
                seq![],
            ),
        ),
{
    let mut out: Vec<GcConst> = Vec::new();
    let ghost one = grammar::gc_consts(reader.bytes());
    proof {
        assert(text::views(out@) =~= seq![]);
    }
    let mut i: u32 = 0;
    while i < n
        invariant
            i <= n,
            reader.wf(),
            reader.bytes() == old(reader).bytes(),
            one == grammar::gc_consts(old(reader).bytes()),
            grammar::scan_many(one, old(reader).at(), n as nat, seq![]) == grammar::scan_many(
                one,
                reader.at(),
                (n - i) as nat,
                text::views(out@),
            ),
        decreases n - i,
    {
        let ghost before = text::views(out@);
        let item = read_gc_const(reader)?;
        out.push(item);
        i = i + 1;
        assert(text::views(out@) =~= before.push(item@));
    }
    Ok(out)
}

/// Read a number constant.
fn read_num_const(reader: &mut Reader<'_>) -> (res: Result<NumConst, DecompilerError>)
    requires
        old(reader).wf(),
    ensures
        grammar::reads(
            *old(reader),
            *final(reader),
            res,
            grammar::scan_num_const(old(reader).bytes(), old(reader).at()),
        ),
{
    let (val, tag) = reader.read_uleb128_33()?;
    if tag == 0 {
        // Integer constant. Sign-extend from 32 bits.
        Ok(NumConst::Int(ir::sign_extend32(val)))
    } else {
        // Floating-point: val is low 32 bits; read the high 32 bits
        // of the IEEE-754 double as a separate ULEB128.
        let hi = reader.read_uleb128()?;
        Ok(NumConst::Num(val as u64 + 0x1_0000_0000 * (hi as u64)))
    }
}

/// Read the number constants.
fn read_num_consts(reader: &mut Reader<'_>, n: u32) -> (res: Result<Vec<NumConst>, DecompilerError>)
    requires
        old(reader).wf(),
    ensures
        grammar::reads_all(
            *old(reader),
            *final(reader),
            res,
            grammar::scan_many(
                grammar::num_consts(old(reader).bytes()),
                old(reader).at(),
                n as nat,
                seq![],
            ),
        ),
{
    let mut out: Vec<NumConst> = Vec::new();
    let ghost one = grammar::num_consts(reader.bytes());
    proof {
        assert(text::views(out@) =~= seq![]);
    }
    let mut i: u32 = 0;
    while i < n
        invariant
            i <= n,
            reader.wf(),
            reader.bytes() == old(reader).bytes(),
            one == grammar::num_consts(old(reader).bytes()),
            grammar::scan_many(one, old(reader).at(), n as nat, seq![]) == grammar::scan_many(
                one,
                reader.at(),
                (n - i) as nat,
                text::views(out@),
            ),
        decreases n - i,
    {
        let ghost before = text::views(out@);
        let item = read_num_const(reader)?;
        out.push(item);
        i = i + 1;
        assert(text::views(out@) =~= before.push(item@));
    }
    Ok(out)
}

// ---- Instructions and upvalues ----------------------------------------------

/// Read the instructions, behind the given header word.
fn read_insts(
    reader: &mut Reader<'_>,
    header: Instruction,
    n: u32,
) -> (res: Result<Vec<Instruction>, DecompilerError>)
    requires
        old(reader).wf(),
    ensures
        grammar::reads_all(
            *old(reader),
            *final(reader),
            res,
            grammar::scan_many(
                grammar::insts(old(reader).bytes()),
                old(reader).at(),
                n as nat,
                seq![header],
            ),
        ),
        res matches Ok(insts) ==> insts@.len() == n + 1,
{
    let mut out: Vec<Instruction> = Vec::new();
    out.push(header);
    let ghost one = grammar::insts(reader.bytes());
    proof {
        assert(text::views(out@) =~= seq![header]);
    }
    let mut i: u32 = 0;
    while i < n
        invariant
            i <= n,
            out@.len() == i + 1,
            reader.wf(),
            reader.bytes() == old(reader).bytes(),
            one == grammar::insts(old(reader).bytes()),
            grammar::scan_many(one, old(reader).at(), n as nat, seq![header]) == grammar::scan_many(
                one,
                reader.at(),
                (n - i) as nat,
                text::views(out@),
            ),
        decreases n - i,
    {
        let ghost before = text::views(out@);
        let item = Instruction::read(reader)?;
        out.push(item);
        i = i + 1;
        assert(text::views(out@) =~= before.push(item@));
    }
    Ok(out)
}

/// Read one upvalue descriptor.
fn read_upvalue(reader: &mut Reader<'_>) -> (res: Result<UpvalDesc, DecompilerError>)
    requires
        old(reader).wf(),
    ensures
        grammar::reads(
            *old(reader),
            *final(reader),
            res,
            grammar::scan_upvalue(old(reader).bytes(), old(reader).at()),
        ),
{
    let raw = reader.read_u16()?;
    Ok(UpvalDesc { raw })
}

/// Read the upvalue descriptors.
fn read_upvalues(reader: &mut Reader<'_>, n: u8) -> (res: Result<Vec<UpvalDesc>, DecompilerError>)
    requires
        old(reader).wf(),
    ensures
        grammar::reads_all(
            *old(reader),
            *final(reader),
            res,
            grammar::scan_many(
                grammar::upvalues(old(reader).bytes()),
                old(reader).at(),
                n as nat,
                seq![],
            ),
        ),
{
    let mut out: Vec<UpvalDesc> = Vec::new();
    let ghost one = grammar::upvalues(reader.bytes());
    proof {
        assert(text::views(out@) =~= seq![]);
    }
    let mut i: u8 = 0;
    while i < n
        invariant
            i <= n,
            reader.wf(),
            reader.bytes() == old(reader).bytes(),
            one == grammar::upvalues(old(reader).bytes()),
            grammar::scan_many(one, old(reader).at(), n as nat, seq![]) == grammar::scan_many(
                one,
                reader.at(),
                (n - i) as nat,
                text::views(out@),
            ),
        decreases n - i,
    {
        let ghost before = text::views(out@);
        let item = read_upvalue(reader)?;
        out.push(item);
        i = i + 1;
        assert(text::views(out@) =~= before.push(item@));
    }
    Ok(out)
}

// ---- Debug section -----------------------------------------------------------

/// Read one line entry.
fn read_line(reader: &mut Reader<'_>, firstline: u32, numline: u32) -> (res: Result<
    u32,
    DecompilerError,
>)
    requires
        old(reader).wf(),
    ensures
        grammar::reads(
            *old(reader),
            *final(reader),
            res,
            grammar::scan_line(old(reader).bytes(), old(reader).at(), firstline, numline),
        ),
{
    let delta: u32 = if numline < 256 {
        reader.read_u8()? as u32
    } else if numline < 65536 {
        reader.read_u16()? as u32
    } else {
        reader.read_u32()?
    };
    Ok(firstline.wrapping_add(delta))
}

/// Read the per-instruction line-info array. Each entry is a delta
/// relative to `firstline`; the width depends on `numline`. The
/// returned values are absolute source lines for each real
/// instruction.
fn read_line_info(
    reader: &mut Reader<'_>,
    numbc: u32,
    firstline: u32,
    numline: u32,
) -> (res: Result<Vec<u32>, DecompilerError>)
    requires
        old(reader).wf(),
    ensures
        grammar::reads_all(
            *old(reader),
            *final(reader),
            res,
            grammar::scan_many(
                grammar::lines(old(reader).bytes(), firstline, numline),
                old(reader).at(),
                numbc as nat,
                seq![],
            ),
        ),
{
    let mut out: Vec<u32> = Vec::new();
    let ghost one = grammar::lines(reader.bytes(), firstline, numline);
    proof {
        assert(text::views(out@) =~= seq![]);
    }
    let mut i: u32 = 0;
    while i < numbc
        invariant
            i <= numbc,
            reader.wf(),
            reader.bytes() == old(reader).bytes(),
            one == grammar::lines(old(reader).bytes(), firstline, numline),
            grammar::scan_many(one, old(reader).at(), numbc as nat, seq![]) == grammar::scan_many(
                one,
                reader.at(),
                (numbc - i) as nat,
                text::views(out@),
            ),
        decreases numbc - i,
    {
        let ghost before = text::views(out@);
        let item = read_line(reader, firstline, numline)?;
        out.push(item);
        i = i + 1;
        assert(text::views(out@) =~= before.push(item@));
    }
    Ok(out)
}

/// Read `numuv` null-terminated upvalue name strings.
fn read_upvalue_names(
    reader: &mut Reader<'_>,
    numuv: u8,
) -> (res: Result<Vec<String>, DecompilerError>)
    requires
        old(reader).wf(),
    ensures
        grammar::reads_all(
            *old(reader),
            *final(reader),
            res,
            grammar::scan_many(
                grammar::cstrings(old(reader).bytes()),
                old(reader).at(),
                numuv as nat,
                seq![],
            ),
        ),
{
    let mut out: Vec<String> = Vec::new();
    let ghost one = grammar::cstrings(reader.bytes());
    proof {
        assert(text::views(out@) =~= seq![]);
    }
    let mut i: u8 = 0;
    while i < numuv
        invariant
            i <= numuv,
            reader.wf(),
            reader.bytes() == old(reader).bytes(),
            one == grammar::cstrings(old(reader).bytes()),
            grammar::scan_many(one, old(reader).at(), numuv as nat, seq![]) == grammar::scan_many(
                one,
                reader.at(),
                (numuv - i) as nat,
                text::views(out@),
            ),
        decreases numuv - i,
    {
        let ghost before = text::views(out@);
        let item = read_cstring(reader)?;
        out.push(item);
        i = i + 1;
        assert(text::views(out@) =~= before.push(item@));
    }
    Ok(out)
}

/// Read bytes until a `0x00` terminator, returning them as a UTF-8
/// string (lossy: upvalue names are conventionally ASCII).
fn read_cstring(reader: &mut Reader<'_>) -> (res: Result<String, DecompilerError>)
    requires
        old(reader).wf(),
    ensures
        grammar::reads(
            *old(reader),
            *final(reader),
            res,
            grammar::scan_cstring(old(reader).bytes(), old(reader).at()),
        ),
{
    let ghost b = reader.bytes();
    let ghost p = reader.at();
    let mut bytes: Vec<u8> = Vec::new();
    loop
        invariant
            b == old(reader).bytes(),
            p == old(reader).at(),
            0 <= p <= b.len(),
            reader.wf(),
            reader.bytes() == b,
            reader.at() == p + bytes@.len(),
            bytes@ == b.subrange(p, reader.at()),
            grammar::text_run(b, p) == bytes@.len() + grammar::text_run(b, reader.at()),
        decreases b.len() - reader.at(),
    {
        let c = reader.read_u8()?;
        if c == 0 {
            return Ok(text::decode_lossy(bytes.as_slice()));
        }
        bytes.push(c);
        assert(bytes@ =~= b.subrange(p, reader.at()));
    }
}

/// Read the kind and name of a var-info record. A type byte of
/// `VAR_STR` or more is the first character of a name.
fn read_var_name(reader: &mut Reader<'_>, type_byte: u8) -> (res: Result<
    (VarKind, Option<String>),
    DecompilerError,
>)
    requires
        old(reader).wf(),
        type_byte != 0,
    ensures
        final(reader).moved_to(
            *old(reader),
            grammar::scan_var_name(old(reader).bytes(), old(reader).at(), type_byte).pos,
        ),
        match (res, grammar::scan_var_name(old(reader).bytes(), old(reader).at(), type_byte).out) {
            (Ok((kind, name)), Ok((kind_v, name_v))) => kind == kind_v && match (name, name_v) {
                (Some(n), Some(n_v)) => n@ == n_v,
                (None, None) => true,
                _ => false,
            },
            (Err(e), Err(f)) => e@ == f && grammar::fault_within(f, final(reader).at()),
            _ => false,
        },
{
    if type_byte >= VAR_STR {
        let mut name = String::new();
        name.push(type_byte as char);
        let rest = read_cstring(reader)?;
        name.append(rest.as_str());
        assert(name@ =~= seq![type_byte as char] + rest@);
        return Ok((VarKind::Name, Some(name)));
    }
    let kind = match type_byte {
        1 => VarKind::ForIdx,
        2 => VarKind::ForStop,
        3 => VarKind::ForStep,
        4 => VarKind::ForGen,
        5 => VarKind::ForState,
        _ => VarKind::ForCtl,
    };
    Ok((kind, None))
}

/// Read the scope of a var-info record: whether it is a parameter, and
/// where the scope begins and ends.
fn read_scope(reader: &mut Reader<'_>, scope_offset: u32) -> (res: Result<
    (bool, u32, u32),
    DecompilerError,
>)
    requires
        old(reader).wf(),
    ensures
        grammar::reads(
            *old(reader),
            *final(reader),
            res,
            grammar::scan_scope(old(reader).bytes(), old(reader).at(), scope_offset),
        ),
{
    // scope_offset of exactly 1 is forbidden (means the wrap to 0
    // happened with a non-zero delta).
    if scope_offset == 1 {
        return Err(
            DecompilerError::InvalidBytecode {
                offset: reader.pos(),
                reason: String::from_str("invalid var-info scope offset of 1"),
            },
        );
    }
    let last = reader.read_uleb128()?;
    if scope_offset == 0 {
        // Parameter: scope_begin implicit; the stored end is 2 more
        // than the actual one.
        Ok((true, 0, last.wrapping_sub(2)))
    } else {
        // Regular local: scope_begin = scope_offset - 2; the stored
        // value is the length of the scope.
        let scope_begin: u32 = scope_offset - 2;
        Ok((false, scope_begin, scope_begin.wrapping_add(last)))
    }
}

/// Read the var-info records up to the `0x00` terminator, without their
/// slots. Each record is: a 1-byte type, then a ULEB128 `scope_delta`
/// applied to a running `scope_offset`, then a ULEB128 for the end of
/// the scope.
fn read_var_records(reader: &mut Reader<'_>) -> (res: Result<Vec<VarInfo>, DecompilerError>)
    requires
        old(reader).wf(),
    ensures
        grammar::reads_all(
            *old(reader),
            *final(reader),
            res,
            grammar::scan_var_records(old(reader).bytes(), old(reader).at(), 0, seq![]),
        ),
{
    let mut records: Vec<VarInfo> = Vec::new();
    let mut scope_offset: u32 = 0;
    let ghost b = reader.bytes();
    proof {
        assert(text::views(records@) =~= seq![]);
    }
    loop
        invariant
            b == old(reader).bytes(),
            reader.wf(),
            reader.bytes() == b,
            grammar::scan_var_records(b, old(reader).at(), 0, seq![]) == grammar::scan_var_records(
                b,
                reader.at(),
                scope_offset,
                text::views(records@),
            ),
        decreases b.len() - reader.at(),
    {
        let ghost before = text::views(records@);
        let type_byte = reader.read_u8()?;
        if type_byte == 0 {
            return Ok(records);
        }
        let (kind, name) = read_var_name(reader, type_byte)?;
        let delta = reader.read_uleb128()?;
        scope_offset = scope_offset.wrapping_add(delta);
        let (is_parameter, scope_begin, scope_end) = read_scope(reader, scope_offset)?;
        let record = VarInfo { kind, name, is_parameter, slot: 0, scope_begin, scope_end };
        records.push(record);
        assert(text::views(records@) =~= before.push(record@));
    }
}

/// Whether an earlier local still holds `slot` at `begin`.
fn is_slot_held(prev: &Vec<VarInfo>, slot: u8, begin: u32) -> (held: bool)
    ensures
        held == grammar::slot_held(text::views(prev@), slot as int, begin),
{
    let ghost all = text::views(prev@);
    let mut i: usize = 0;
    while i < prev.len()
        invariant
            i <= prev.len(),
            all == text::views(prev@),
            forall|k: int|
                0 <= k < i ==> (#[trigger] all[k]).is_parameter || all[k].slot != slot
                    || all[k].scope_end < begin,
        decreases prev.len() - i,
    {
        let v = &prev[i];
        assert(all[i as int] == v@);
        if !v.is_parameter && v.slot == slot && v.scope_end >= begin {
            return true;
        }
        i = i + 1;
    }
    false
}

/// The lowest slot from `from` on that no earlier local holds at
/// `begin`.
fn find_free_slot(prev: &Vec<VarInfo>, from: u8, begin: u32) -> (found: Option<u8>)
    ensures
        found == grammar::first_free(text::views(prev@), from as int, begin),
{
    let mut slot: u16 = from as u16;
    while slot < 256
        invariant
            slot <= 256,
            grammar::first_free(text::views(prev@), from as int, begin) == grammar::first_free(
                text::views(prev@),
                slot as int,
                begin,
            ),
        decreases 256 - slot,
    {
        if !is_slot_held(prev, slot as u8, begin) {
            return Some(slot as u8);
        }
        slot = slot + 1;
    }
    None
}

/// Assign each record its slot via first-fit allocation, mirroring
/// LuaJIT's register allocator. Parameters are assigned sequential slots
/// in declaration order. Locals start at slot `numparams` and take the
/// lowest slot not held by any prior local whose scope overlaps this
/// one. Slots occupied by parameters are never reused by locals
/// (parameters are live for the whole proto). `None` when there is a
/// record for which no slot is left.
fn assign_slots(records: Vec<VarInfo>, numparams: u8) -> (out: Option<Vec<VarInfo>>)
    ensures
        match (out, grammar::slotted(text::views(records@), numparams, records@.len())) {
            (Some(vars), Some(expected)) => text::views(vars@) == expected,
            (None, None) => true,
            _ => false,
        },
{
    let ghost all = text::views(records@);
    let mut next_param_slot: u16 = 0;
    let mut out: Vec<VarInfo> = Vec::new();
    let mut i: usize = 0;
    proof {
        assert(text::views(out@) =~= seq![]);
    }
    while i < records.len()
        invariant
            i <= records.len(),
            all == text::views(records@),
            grammar::slotted(all, numparams, i as nat) == Some(text::views(out@)),
            next_param_slot <= 256,
            next_param_slot == grammar::parameter_count(text::views(out@)),
        decreases records.len() - i,
    {
        let ghost prev = text::views(out@);
        let record = &records[i];
        assert(all[i as int] == record@);
        let slot: Option<u8> = if record.is_parameter {
            if next_param_slot <= 255 {
                Some(next_param_slot as u8)
            } else {
                None
            }
        } else {
            find_free_slot(&out, numparams, record.scope_begin)
        };
        assert(slot == grammar::slot_for(prev, all[i as int], numparams));
        match slot {
            None => {
                proof {
                    lemma_slotted_none(all, numparams, (i + 1) as nat, records@.len());
                }
                return None;
            },
            Some(s) => {
                if record.is_parameter {
                    next_param_slot = next_param_slot + 1;
                }
                let name = match &record.name {
                    Some(n) => Some(n.clone()),
                    None => None,
                };
                let placed = VarInfo {
                    kind: record.kind,
                    name,
                    is_parameter: record.is_parameter,
                    slot: s,
                    scope_begin: record.scope_begin,
                    scope_end: record.scope_end,
                };
                out.push(placed);
                proof {
                    assert(text::views(out@) =~= prev.push(placed@));
                    assert(prev.push(placed@).drop_last() =~= prev);
                    assert(placed@ == (VarInfoV { slot: s, ..all[i as int] }));
                }
            },
        }
        i = i + 1;
    }
    Some(out)
}

/// Once a record finds no slot, no longer run of records has slots.
proof fn lemma_slotted_none(records: Seq<VarInfoV>, numparams: u8, n: nat, m: nat)
    requires
        n <= m,
        grammar::slotted(records, numparams, n) is None,
    ensures
        grammar::slotted(records, numparams, m) is None,
    decreases m,
{
    if n < m {
        lemma_slotted_none(records, numparams, n, (m - 1) as nat);
    }
}

/// Read var-info records until the `0x00` terminator, and derive the
/// slot of each. `numparams` is the proto's parameter count.
fn read_var_info(reader: &mut Reader<'_>, numparams: u8) -> (res: Result<
    Vec<VarInfo>,
    DecompilerError,
>)
    requires
        old(reader).wf(),
    ensures
        grammar::reads_all(
            *old(reader),
            *final(reader),
            res,
            grammar::scan_var_info(old(reader).bytes(), old(reader).at(), numparams),
        ),
{
    let records = read_var_records(reader)?;
    match assign_slots(records, numparams) {
        Some(out) => Ok(out),
        None => Err(
            DecompilerError::InvalidBytecode {
                offset: reader.pos(),
                reason: String::from_str("var-info needs more than 256 slots"),
            },
        ),
    }
}

/// Read the debug section of a prototype with the given head.
fn read_debug_info(reader: &mut Reader<'_>, head: &ProtoHead) -> (res: Result<
    DebugInfo,
    DecompilerError,
>)
    requires
        old(reader).wf(),
    ensures
        grammar::reads(
            *old(reader),
            *final(reader),
            res,
            grammar::scan_debug(old(reader).bytes(), old(reader).at(), *head),
        ),
{
    let dbg_start: usize = reader.pos();
    let line_info = read_line_info(reader, head.numbc, head.firstline, head.numline)?;
    let upvalue_names = read_upvalue_names(reader, head.numuv)?;
    let var_info = read_var_info(reader, head.numparams)?;
    proof {
        let b = old(reader).bytes();
        let l = grammar::scan_many(
            grammar::lines(b, head.firstline, head.numline),
            old(reader).at(),
            head.numbc as nat,
            seq![],
        );
        lemma_lines_forward(
            b,
            head.firstline,
            head.numline,
            old(reader).at(),
            head.numbc as nat,
            seq![],
        );
        lemma_names_forward(b, l.pos, head.numuv as nat, seq![]);
        let n = grammar::scan_many(grammar::cstrings(b), l.pos, head.numuv as nat, seq![]);
        lemma_records_forward(b, n.pos, 0, seq![]);
        assert(text::views(line_info@) =~= line_info@);
    }
    let consumed: usize = reader.pos() - dbg_start;
    if consumed != head.sizedbg as usize {
        let mut reason = String::from_str("debug section length mismatch: declared ");
        text::push_decimal(&mut reason, head.sizedbg as u64);
        reason.append(" bytes but consumed ");
        text::push_decimal(&mut reason, consumed as u64);
        return Err(DecompilerError::InvalidBytecode { offset: reader.pos(), reason });
    }
    Ok(
        DebugInfo {
            firstline: head.firstline,
            numline: head.numline,
            line_info,
            upvalue_names,
            var_info,
        },
    )
}

/// Reading lines never moves back.
proof fn lemma_lines_forward(
    b: Seq<u8>,
    firstline: u32,
    numline: u32,
    p: int,
    n: nat,
    so_far: Seq<u32>,
)
    ensures
        grammar::scan_many(grammar::lines(b, firstline, numline), p, n, so_far).pos >= p,
    decreases n,
{
    let one = grammar::lines(b, firstline, numline);
    if n > 0 {
        assert(one(p).pos >= p);
        match one(p).out {
            Err(f) => {},
            Ok(item) => {
                lemma_lines_forward(
                    b,
                    firstline,
                    numline,
                    one(p).pos,
                    (n - 1) as nat,
                    so_far.push(item),
                );
            },
        }
    }
}

/// Reading names never moves back.
proof fn lemma_names_forward(b: Seq<u8>, p: int, n: nat, so_far: Seq<Seq<char>>)
    ensures
        grammar::scan_many(grammar::cstrings(b), p, n, so_far).pos >= p,
    decreases n,
{
    let one = grammar::cstrings(b);
    if n > 0 {
        assert(one(p).pos >= p);
        match one(p).out {
            Err(f) => {},
            Ok(item) => {
                lemma_names_forward(b, one(p).pos, (n - 1) as nat, so_far.push(item));
            },
        }
    }
}

/// Reading var-info records never moves back.
proof fn lemma_records_forward(b: Seq<u8>, p: int, scope: u32, so_far: Seq<VarInfoV>)
    ensures
        grammar::scan_var_records(b, p, scope, so_far).pos >= p,
    decreases b.len() - p,
{
    let t = reader::scan_u8(b, p);
    if let Ok(kind_byte) = t.out {
        let name = grammar::scan_var_name(b, t.pos, kind_byte);
        if let Ok((kind, name_text)) = name.out {
            let delta = reader::scan_uleb(b, name.pos);
            if let Ok(d) = delta.out {
                let next = grammar::wrapped_sum(scope, d);
                let range = grammar::scan_scope(b, delta.pos, next);
                if let Ok((is_parameter, scope_begin, scope_end)) = range.out {
                    let record = VarInfoV {
                        kind,
                        name: name_text,
                        is_parameter,
                        slot: 0,
                        scope_begin,
                        scope_end,
                    };
                    lemma_records_forward(b, range.pos, next, so_far.push(record));
                }
            }
        }
    }
}

// ---- Prototypes --------------------------------------------------------------

/// Read the head of a prototype: four bytes, three counts, and, unless
/// the dump is stripped, the debug sizing.
fn read_head(reader: &mut Reader<'_>, stripped: bool) -> (res: Result<ProtoHead, DecompilerError>)
    requires
        old(reader).wf(),
    ensures
        grammar::reads(
            *old(reader),
            *final(reader),
            res,
            grammar::scan_head(old(reader).bytes(), old(reader).at(), stripped),
        ),
{
    let flags = reader.read_u8()?;
    if (flags & !(PROTO_CHILD | PROTO_VARARG | PROTO_FFI)) != 0 {
        let mut reason = String::from_str("unknown proto flags byte 0x");
        text::push_hex(&mut reason, flags as u64, 2);
        return Err(DecompilerError::InvalidBytecode { offset: reader.pos() - 1, reason });
    }
    let numparams = reader.read_u8()?;
    let framesize = reader.read_u8()?;
    let numuv = reader.read_u8()?;
    let numkgc = reader.read_uleb128()?;
    let numkn = reader.read_uleb128()?;
    let numbc = reader.read_uleb128()?;
    let mut sizedbg: u32 = 0;
    let mut firstline: u32 = 0;
    let mut numline: u32 = 0;
    if !stripped {
        sizedbg = reader.read_uleb128()?;
        if sizedbg > 0 {
            firstline = reader.read_uleb128()?;
            numline = reader.read_uleb128()?;
        }
    }
    Ok(
        ProtoHead {
            flags,
            numparams,
            framesize,
            numuv,
            numkgc,
            numkn,
            numbc,
            sizedbg,
            firstline,
            numline,
        },
    )
}

/// Parse one prototype. Offsets reported in errors here are relative to
/// the proto's block; [`parse_protos`] translates them to absolute
/// input offsets before surfacing the error.
fn parse_proto(reader: &mut Reader<'_>, stripped: bool) -> (res: Result<Proto, DecompilerError>)
    requires
        old(reader).wf(),
    ensures
        grammar::reads(
            *old(reader),
            *final(reader),
            res,
            grammar::scan_proto(old(reader).bytes(), old(reader).at(), stripped),
        ),
        res matches Ok(proto) ==> proto.insts@.len() <= cfg::MAX_INSTS,
{
    reveal(grammar::scan_proto);
    let head = read_head(reader, stripped)?;
    // Real instructions start at in-memory index 1; slot 0 is the
    // synthesized FUNC* header (FUNCF for fixed-arg, FUNCV for vararg)
    // with A=framesize.
    let header_op = if head.flags & PROTO_VARARG != 0 {
        Opcode::Funcv
    } else {
        Opcode::Funcf
    };
    let header = Instruction::synthetic_header(header_op, head.framesize);
    let insts = read_insts(reader, header, head.numbc)?;
    let upvalues = read_upvalues(reader, head.numuv)?;
    // Stored in the file in a specific order but referenced via reverse
    // index; kept in file order.
    let gc_consts = read_gc_consts(reader, head.numkgc)?;
    let num_consts = read_num_consts(reader, head.numkn)?;
    let debug = if head.sizedbg > 0 {
        Some(read_debug_info(reader, &head)?)
    } else {
        None
    };
    proof {
        assert(text::views(insts@) =~= insts@);
        assert(text::views(upvalues@) =~= upvalues@);
        assert(text::views(num_consts@) =~= num_consts@);
    }
    Ok(
        Proto {
            flags: head.flags,
            numparams: head.numparams,
            framesize: head.framesize,
            upvalues,
            gc_consts,
            num_consts,
            insts,
            debug,
        },
    )
}

/// Lift a block-relative offset to an absolute input offset.
fn translate_offset(e: DecompilerError, base: usize) -> (out: DecompilerError)
    requires
        e matches DecompilerError::InvalidBytecode { offset, .. } ==> base + offset <= usize::MAX,
    ensures
        out@ == grammar::lifted(e@, base as int),
{
    match e {
        DecompilerError::InvalidBytecode { offset, reason } => DecompilerError::InvalidBytecode {
            offset: base + offset,
            reason,
        },
        DecompilerError::NotImplemented => DecompilerError::NotImplemented,
    }
}

/// Parse the prototypes up to the terminating zero length.
fn parse_protos(reader: &mut Reader<'_>, header_flags: u32) -> (res: Result<
    Vec<Proto>,
    DecompilerError,
>)
    requires
        old(reader).wf(),
    ensures
        grammar::reads_all(
            *old(reader),
            *final(reader),
            res,
            grammar::scan_protos(
                old(reader).bytes(),
                old(reader).at(),
                ir::flags_stripped(header_flags),
                seq![],
            ),
        ),
        res matches Ok(protos) ==> protos@.len() > 0,
        res matches Ok(protos) ==> forall|i: int|
            0 <= i < protos@.len() ==> (#[trigger] protos@[i]).insts@.len() <= cfg::MAX_INSTS,
{
    let stripped: bool = header_flags & FLAG_STRIP != 0;
    let ghost b = reader.bytes();
    let mut protos: Vec<Proto> = Vec::new();
    proof {
        assert(text::views(protos@) =~= seq![]);
    }
    loop
        invariant
            b == old(reader).bytes(),
            reader.wf(),
            reader.bytes() == b,
            stripped == ir::flags_stripped(header_flags),
            forall|i: int|
                0 <= i < protos@.len() ==> (#[trigger] protos@[i]).insts@.len() <= cfg::MAX_INSTS,
            grammar::scan_protos(b, old(reader).at(), stripped, seq![]) == grammar::scan_protos(
                b,
                reader.at(),
                stripped,
                text::views(protos@),
            ),
        decreases b.len() - reader.at(),
    {
        let ghost before = text::views(protos@);
        let length = reader.read_uleb128()?;
        if length == 0 {
            if protos.len() == 0 {
                return Err(
                    DecompilerError::InvalidBytecode {
                        offset: reader.pos(),
                        reason: String::from_str(
                            "no protos in dump (expected at least the main chunk)",
                        ),
                    },
                );
            }
            return Ok(protos);
        }
        let start: usize = reader.pos();
        let pdata = reader.read_bytes(length as usize)?;
        let end: usize = reader.pos();
        assert(start + pdata@.len() == end);
        // Parse the proto from a sub-reader so a runaway read inside
        // the proto cannot run past the proto's declared length and
        // desynchronize the parent loop.
        let mut sub = Reader::new(pdata);
        let proto = match parse_proto(&mut sub, stripped) {
            Ok(proto) => proto,
            Err(e) => {
                return Err(translate_offset(e, start));
            },
        };
        // The proto must consume exactly its declared length; a
        // mismatch means the input is corrupt.
        let consumed: usize = sub.pos();
        if consumed != length as usize {
            let mut reason = String::from_str("proto length mismatch: header declared ");
            text::push_decimal(&mut reason, length as u64);
            reason.append(" bytes but parser consumed ");
            text::push_decimal(&mut reason, consumed as u64);
            return Err(DecompilerError::InvalidBytecode { offset: start + consumed, reason });
        }
        protos.push(proto);
        assert(text::views(protos@) =~= before.push(proto@));
    }
}

// ---- Header --------------------------------------------------------------------

/// Parse the file header.
fn parse_header(reader: &mut Reader<'_>) -> (res: Result<ModuleHeader, DecompilerError>)
    requires
        old(reader).wf(),
        old(reader).at() == 0,
    ensures
        grammar::reads(
            *old(reader),
            *final(reader),
            res,
            grammar::scan_header(old(reader).bytes()),
        ),
{
    // Magic: ESC 'L' 'J' (1B 4C 4A).
    let magic = reader.read_bytes(3)?;
    if magic[0] != 0x1b || magic[1] != 0x4c || magic[2] != 0x4a {
        let mut reason = String::from_str("bad magic bytes 0x");
        text::push_hex(&mut reason, magic[0] as u64, 2);
        reason.append(" 0x");
        text::push_hex(&mut reason, magic[1] as u64, 2);
        reason.append(" 0x");
        text::push_hex(&mut reason, magic[2] as u64, 2);
        reason.append(" (expected 1B 4C 4A)");
        return Err(DecompilerError::InvalidBytecode { offset: 0, reason });
    }
    // Version 02 for LuaJIT 2.x. Reject anything else rather than
    // guessing at v1's opcode remapping.
    let version = reader.read_u8()?;
    if version != 0x02 {
        let mut reason = String::from_str("unsupported bytecode version 0x");
        text::push_hex(&mut reason, version as u64, 2);
        reason.append(" (only 0x02 supported)");
        return Err(DecompilerError::InvalidBytecode { offset: 3, reason });
    }
    // Reject any flag bits outside the known mask, except the
    // writer-only deterministic bit.
    let flags = reader.read_uleb128()?;
    if flags & !(FLAGS_KNOWN_MASK | 0x8000_0000) != 0 {
        let mut reason = String::from_str("unknown header flags 0x");
        text::push_hex(&mut reason, flags as u64, 8);
        return Err(DecompilerError::InvalidBytecode { offset: 4, reason });
    }
    // Reject big-endian dumps; the parser is little-endian only.
    if flags & FLAG_BE != 0 {
        return Err(
            DecompilerError::InvalidBytecode {
                offset: 4,
                reason: String::from_str("big-endian bytecode is not supported"),
            },
        );
    }
    let chunkname = if flags & FLAG_STRIP == 0 {
        let namelen = reader.read_uleb128()?;
        let name = reader.read_bytes(namelen as usize)?;
        Some(slice_to_vec(name))
    } else {
        None
    };
    Ok(ModuleHeader { flags, chunkname })
}

} // verus!
