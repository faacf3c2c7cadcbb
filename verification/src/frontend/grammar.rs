//! The LuaJIT 2.x dump format, as functions from the input bytes.
//!
//! Each `scan_*` function maps the bytes and a position to the value or
//! fault found there and to the position behind it ([`Scan`]).

use vstd::prelude::*;

use crate::frontend::reader;
use crate::frontend::reader::{Reader, Scan};
use crate::ir;
use crate::ir::{
    DebugInfoV, GcConstV, Instruction, KtabKV, ModuleHeaderV, ModuleV, NumConst, Opcode, ProtoV,
    TableConstV, UpvalDesc, VarInfoV, VarKind,
};
use crate::ir::{
    FLAGS_KNOWN_MASK, FLAG_BE, LAST_OPCODE, PROTO_CHILD, PROTO_FFI, PROTO_VARARG, VAR_STR,
};
use crate::text;
use crate::DecompilerError;
use crate::Fault;

verus! {

// ---- What a read comes to ---------------------------------------------

/// A read that ends in a fault.
pub open spec fn stop<T>(fault: Fault, pos: int) -> Scan<T> {
    Scan { out: Err(fault), pos }
}

/// A read that ends in a value.
pub open spec fn done<T>(value: T, pos: int) -> Scan<T> {
    Scan { out: Ok(value), pos }
}

/// An invalid-bytecode fault.
pub open spec fn invalid(offset: int, reason: Seq<char>) -> Fault {
    Fault::InvalidBytecode { offset, reason }
}

/// Whether a fault's offset is within the bytes read so far.
pub open spec fn fault_within(fault: Fault, limit: int) -> bool {
    match fault {
        Fault::NotImplemented => false,
        Fault::InvalidBytecode { offset, .. } => 0 <= offset <= limit,
    }
}

/// Whether a reader's step from `before` to `after`, with the outcome
/// `res`, is the read that `scan` describes.
pub open spec fn reads<'a, T: View>(
    before: Reader<'a>,
    after: Reader<'a>,
    res: Result<T, DecompilerError>,
    scan: Scan<T::V>,
) -> bool {
    &&& after.moved_to(before, scan.pos)
    &&& crate::yields(res, scan.out)
    &&& (scan.out matches Err(f) ==> fault_within(f, scan.pos))
}

/// As [`reads`], for a vector, whose elements are compared by their
/// views.
pub open spec fn reads_all<'a, T: View>(
    before: Reader<'a>,
    after: Reader<'a>,
    res: Result<Vec<T>, DecompilerError>,
    scan: Scan<Seq<T::V>>,
) -> bool {
    &&& after.moved_to(before, scan.pos)
    &&& match (res, scan.out) {
        (Ok(items), Ok(expected)) => text::views(items@) == expected,
        (Err(e), Err(f)) => e@ == f && fault_within(f, scan.pos),
        _ => false,
    }
}

/// Reading `n` items in a row, after those of `so_far`.
pub open spec fn scan_many<T>(
    one: spec_fn(int) -> Scan<T>,
    p: int,
    n: nat,
    so_far: Seq<T>,
) -> Scan<Seq<T>>
    decreases n,
{
    if n == 0 {
        done(so_far, p)
    } else {
        match one(p).out {
            Err(f) => stop(f, one(p).pos),
            Ok(item) => scan_many(one, one(p).pos, (n - 1) as nat, so_far.push(item)),
        }
    }
}

// ---- The format: constants ---------------------------------------------

/// A 64-bit value from its low and high halves.
pub open spec fn joined_halves(lo: u32, hi: u32) -> u64 {
    (lo + 0x1_0000_0000 * hi) as u64
}

/// A 64-bit value as two LEB128s, low half first.
pub open spec fn scan_halves(b: Seq<u8>, p: int) -> Scan<u64> {
    let lo = reader::scan_uleb(b, p);
    match lo.out {
        Err(f) => stop(f, lo.pos),
        Ok(l) => {
            let hi = reader::scan_uleb(b, lo.pos);
            match hi.out {
                Err(f) => stop(f, hi.pos),
                Ok(h) => done(joined_halves(l, h), hi.pos),
            }
        },
    }
}

/// A table key or value: a type tag, then its payload. A tag of 5 or
/// more is a string of `tag - 5` bytes.
pub open spec fn scan_ktabk(b: Seq<u8>, p: int) -> Scan<KtabKV> {
    let tag = reader::scan_uleb(b, p);
    match tag.out {
        Err(f) => stop(f, tag.pos),
        Ok(t) => if t == 0 {
            done(KtabKV::Nil, tag.pos)
        } else if t == 1 {
            done(KtabKV::False, tag.pos)
        } else if t == 2 {
            done(KtabKV::True, tag.pos)
        } else if t == 3 {
            let v = reader::scan_uleb(b, tag.pos);
            match v.out {
                Err(f) => stop(f, v.pos),
                Ok(n) => done(KtabKV::Int(n as u64), v.pos),
            }
        } else if t == 4 {
            let v = scan_halves(b, tag.pos);
            match v.out {
                Err(f) => stop(f, v.pos),
                Ok(bits) => done(KtabKV::Num(bits), v.pos),
            }
        } else {
            let s = reader::scan_bytes(b, tag.pos, (t - 5) as nat);
            match s.out {
                Err(f) => stop(f, s.pos),
                Ok(bytes) => done(KtabKV::Str(bytes), s.pos),
            }
        },
    }
}

/// [`scan_ktabk`] as a function of the position.
pub open spec fn ktabks(b: Seq<u8>) -> spec_fn(int) -> Scan<KtabKV> {
    |p: int| scan_ktabk(b, p)
}

/// A hash entry: a key, then its value.
pub open spec fn scan_ktab_pair(b: Seq<u8>, p: int) -> Scan<(KtabKV, KtabKV)> {
    let key = scan_ktabk(b, p);
    match key.out {
        Err(f) => stop(f, key.pos),
        Ok(k) => {
            let value = scan_ktabk(b, key.pos);
            match value.out {
                Err(f) => stop(f, value.pos),
                Ok(v) => done((k, v), value.pos),
            }
        },
    }
}

/// [`scan_ktab_pair`] as a function of the position.
pub open spec fn ktab_pairs(b: Seq<u8>) -> spec_fn(int) -> Scan<(KtabKV, KtabKV)> {
    |p: int| scan_ktab_pair(b, p)
}

/// A template table: the two part sizes, the array part, the hash part.
pub open spec fn scan_table(b: Seq<u8>, p: int) -> Scan<TableConstV> {
    let narray = reader::scan_uleb(b, p);
    match narray.out {
        Err(f) => stop(f, narray.pos),
        Ok(na) => {
            let nhash = reader::scan_uleb(b, narray.pos);
            match nhash.out {
                Err(f) => stop(f, nhash.pos),
                Ok(nh) => {
                    let array = scan_many(ktabks(b), nhash.pos, na as nat, seq![]);
                    match array.out {
                        Err(f) => stop(f, array.pos),
                        Ok(a) => {
                            let hash = scan_many(ktab_pairs(b), array.pos, nh as nat, seq![]);
                            match hash.out {
                                Err(f) => stop(f, hash.pos),
                                Ok(h) => done(TableConstV { array: a, hash: h }, hash.pos),
                            }
                        },
                    }
                },
            }
        },
    }
}

/// A GC constant: a type tag, then its payload. A tag of 5 or more is a
/// string of `tag - 5` bytes.
pub open spec fn scan_gc_const(b: Seq<u8>, p: int) -> Scan<GcConstV> {
    let tag = reader::scan_uleb(b, p);
    match tag.out {
        Err(f) => stop(f, tag.pos),
        Ok(t) => if t == 0 {
            done(GcConstV::Child, tag.pos)
        } else if t == 1 {
            let table = scan_table(b, tag.pos);
            match table.out {
                Err(f) => stop(f, table.pos),
                Ok(v) => done(GcConstV::Tab(v), table.pos),
            }
        } else if t == 2 {
            let v = scan_halves(b, tag.pos);
            match v.out {
                Err(f) => stop(f, v.pos),
                Ok(n) => done(GcConstV::I64(n), v.pos),
            }
        } else if t == 3 {
            let v = scan_halves(b, tag.pos);
            match v.out {
                Err(f) => stop(f, v.pos),
                Ok(n) => done(GcConstV::U64(n), v.pos),
            }
        } else if t == 4 {
            let re = scan_halves(b, tag.pos);
            match re.out {
                Err(f) => stop(f, re.pos),
                Ok(r) => {
                    let im = scan_halves(b, re.pos);
                    match im.out {
                        Err(f) => stop(f, im.pos),
                        Ok(i) => done(GcConstV::Complex { real: r, imag: i }, im.pos),
                    }
                },
            }
        } else {
            let s = reader::scan_bytes(b, tag.pos, (t - 5) as nat);
            match s.out {
                Err(f) => stop(f, s.pos),
                Ok(bytes) => done(GcConstV::Str(bytes), s.pos),
            }
        },
    }
}

/// [`scan_gc_const`] as a function of the position.
pub open spec fn gc_consts(b: Seq<u8>) -> spec_fn(int) -> Scan<GcConstV> {
    |p: int| scan_gc_const(b, p)
}

/// A number constant: an integer, or the low half of a double that is
/// followed by its high half.
pub open spec fn scan_num_const(b: Seq<u8>, p: int) -> Scan<NumConst> {
    let head = reader::scan_uleb33(b, p);
    match head.out {
        Err(f) => stop(f, head.pos),
        Ok((v, tag)) => if tag == 0 {
            done(NumConst::Int(ir::signed32(v)), head.pos)
        } else {
            let hi = reader::scan_uleb(b, head.pos);
            match hi.out {
                Err(f) => stop(f, hi.pos),
                Ok(h) => done(NumConst::Num(joined_halves(v, h)), hi.pos),
            }
        },
    }
}

/// [`scan_num_const`] as a function of the position.
pub open spec fn num_consts(b: Seq<u8>) -> spec_fn(int) -> Scan<NumConst> {
    |p: int| scan_num_const(b, p)
}

// ---- The format: instructions and upvalues -------------------------------

/// The opcode that a byte encodes.
pub open spec fn opcode_of(byte: u8) -> Opcode {
    choose|op: Opcode| ir::opcode_byte(op) == byte
}

/// The instruction that four bytes encode: opcode, A, then C and B, or
/// D with its low byte first.
pub open spec fn decoded(raw: Seq<u8>) -> Instruction {
    let op = opcode_of(raw[0]);
    if ir::op_is_abc(op) {
        Instruction { op, a: raw[1], b_or_d: raw[3] as u32, c: raw[2] }
    } else {
        Instruction { op, a: raw[1], b_or_d: (raw[2] + 0x100 * raw[3]) as u32, c: 0 }
    }
}

/// One instruction.
pub open spec fn scan_inst(b: Seq<u8>, p: int) -> Scan<Instruction> {
    let s = reader::scan_bytes(b, p, 4);
    match s.out {
        Err(f) => stop(f, s.pos),
        Ok(raw) => if raw[0] > LAST_OPCODE {
            stop(invalid(p, ir::opcode_reason(raw[0])), s.pos)
        } else {
            done(decoded(raw), s.pos)
        },
    }
}

/// [`scan_inst`] as a function of the position.
pub open spec fn insts(b: Seq<u8>) -> spec_fn(int) -> Scan<Instruction> {
    |p: int| scan_inst(b, p)
}

/// One upvalue descriptor.
pub open spec fn scan_upvalue(b: Seq<u8>, p: int) -> Scan<UpvalDesc> {
    let s = reader::scan_u16(b, p);
    match s.out {
        Err(f) => stop(f, s.pos),
        Ok(raw) => done(UpvalDesc { raw }, s.pos),
    }
}

/// [`scan_upvalue`] as a function of the position.
pub open spec fn upvalues(b: Seq<u8>) -> spec_fn(int) -> Scan<UpvalDesc> {
    |p: int| scan_upvalue(b, p)
}

// ---- The format: debug section -------------------------------------------

/// Addition of 32-bit values modulo 2^32.
pub open spec fn wrapped_sum(a: u32, b: u32) -> u32 {
    if a + b > u32::MAX {
        (a + b - 0x1_0000_0000) as u32
    } else {
        (a + b) as u32
    }
}

/// One line entry: a distance from the first line, in one, two or four
/// bytes depending on how many lines there are.
pub open spec fn scan_line(b: Seq<u8>, p: int, firstline: u32, numline: u32) -> Scan<u32> {
    if numline < 256 {
        let d = reader::scan_u8(b, p);
        match d.out {
            Err(f) => stop(f, d.pos),
            Ok(n) => done(wrapped_sum(firstline, n as u32), d.pos),
        }
    } else if numline < 65536 {
        let d = reader::scan_u16(b, p);
        match d.out {
            Err(f) => stop(f, d.pos),
            Ok(n) => done(wrapped_sum(firstline, n as u32), d.pos),
        }
    } else {
        let d = reader::scan_u32(b, p);
        match d.out {
            Err(f) => stop(f, d.pos),
            Ok(n) => done(wrapped_sum(firstline, n), d.pos),
        }
    }
}

/// [`scan_line`] as a function of the position.
pub open spec fn lines(b: Seq<u8>, firstline: u32, numline: u32) -> spec_fn(int) -> Scan<u32> {
    |p: int| scan_line(b, p, firstline, numline)
}

/// How many bytes from `p` on are not zero, up to the first that is, or
/// to the end.
pub open spec fn text_run(b: Seq<u8>, p: int) -> nat
    decreases b.len() - p,
{
    if p < 0 || p >= b.len() || b[p] == 0 {
        0
    } else {
        1 + text_run(b, p + 1)
    }
}

/// A zero-terminated text.
pub open spec fn scan_cstring(b: Seq<u8>, p: int) -> Scan<Seq<char>> {
    let n = text_run(b, p);
    if p + n < b.len() {
        done(text::utf8_lossy(b.subrange(p, p + n)), p + n + 1)
    } else {
        stop(reader::eof_fault(p + n, "u8"@), p + n)
    }
}

/// [`scan_cstring`] as a function of the position.
pub open spec fn cstrings(b: Seq<u8>) -> spec_fn(int) -> Scan<Seq<char>> {
    |p: int| scan_cstring(b, p)
}

/// The kind that a type byte below [`VAR_STR`] stands for.
pub open spec fn loop_var_kind(t: u8) -> VarKind {
    if t == 1 {
        VarKind::ForIdx
    } else if t == 2 {
        VarKind::ForStop
    } else if t == 3 {
        VarKind::ForStep
    } else if t == 4 {
        VarKind::ForGen
    } else if t == 5 {
        VarKind::ForState
    } else {
        VarKind::ForCtl
    }
}

/// The kind and name of a var-info record with the type byte `t`, whose
/// further text starts at `p`.
pub open spec fn scan_var_name(b: Seq<u8>, p: int, t: u8) -> Scan<(VarKind, Option<Seq<char>>)> {
    if t >= VAR_STR {
        let rest = scan_cstring(b, p);
        match rest.out {
            Err(f) => stop(f, rest.pos),
            Ok(tail) => done((VarKind::Name, Some(seq![t as char] + tail)), rest.pos),
        }
    } else {
        done((loop_var_kind(t), None), p)
    }
}

/// The scope of a var-info record: whether it is a parameter, where the
/// scope begins and where it ends. `scope` is the running scope offset;
/// 0 marks a parameter and 1 is never valid.
pub open spec fn scan_scope(b: Seq<u8>, p: int, scope: u32) -> Scan<(bool, u32, u32)> {
    if scope == 1 {
        stop(invalid(p, "invalid var-info scope offset of 1"@), p)
    } else {
        let last = reader::scan_uleb(b, p);
        match last.out {
            Err(f) => stop(f, last.pos),
            Ok(n) => if scope == 0 {
                done((true, 0, wrapped_sum(n, 0xffff_fffe)), last.pos)
            } else {
                let begin = (scope - 2) as u32;
                done((false, begin, wrapped_sum(begin, n)), last.pos)
            },
        }
    }
}

/// The var-info records from `p` to the zero byte that ends them, after
/// those of `so_far`. No slot is assigned yet.
pub open spec fn scan_var_records(
    b: Seq<u8>,
    p: int,
    scope: u32,
    so_far: Seq<VarInfoV>,
) -> Scan<Seq<VarInfoV>>
    decreases b.len() - p,
{
    let t = reader::scan_u8(b, p);
    match t.out {
        Err(f) => stop(f, t.pos),
        Ok(kind_byte) => if kind_byte == 0 {
            done(so_far, t.pos)
        } else {
            let name = scan_var_name(b, t.pos, kind_byte);
            match name.out {
                Err(f) => stop(f, name.pos),
                Ok((kind, text)) => {
                    let delta = reader::scan_uleb(b, name.pos);
                    match delta.out {
                        Err(f) => stop(f, delta.pos),
                        Ok(d) => {
                            let next = wrapped_sum(scope, d);
                            let range = scan_scope(b, delta.pos, next);
                            match range.out {
                                Err(f) => stop(f, range.pos),
                                Ok((is_parameter, scope_begin, scope_end)) => scan_var_records(
                                    b,
                                    range.pos,
                                    next,
                                    so_far.push(
                                        VarInfoV {
                                            kind,
                                            name: text,
                                            is_parameter,
                                            slot: 0,
                                            scope_begin,
                                            scope_end,
                                        },
                                    ),
                                ),
                            }
                        },
                    }
                },
            }
        },
    }
}

/// Whether a local of `prev` still holds `slot` at `begin`.
pub open spec fn slot_held(prev: Seq<VarInfoV>, slot: int, begin: u32) -> bool {
    exists|i: int|
        0 <= i < prev.len() && !(#[trigger] prev[i]).is_parameter && prev[i].slot == slot
            && prev[i].scope_end >= begin
}

/// The lowest slot from `slot` on that no local of `prev` holds at
/// `begin`, if there is one.
pub open spec fn first_free(prev: Seq<VarInfoV>, slot: int, begin: u32) -> Option<u8>
    decreases 256 - slot,
{
    if slot > 255 {
        None
    } else if slot_held(prev, slot, begin) {
        first_free(prev, slot + 1, begin)
    } else {
        Some(slot as u8)
    }
}

/// How many of the records are parameters.
pub open spec fn parameter_count(records: Seq<VarInfoV>) -> nat
    decreases records.len(),
{
    if records.len() == 0 {
        0
    } else {
        parameter_count(records.drop_last()) + if records.last().is_parameter {
            1nat
        } else {
            0nat
        }
    }
}

/// The slot of a record that follows the records of `prev`. Parameters
/// take slots 0, 1, 2, ... in order. A local takes the lowest slot,
/// from the first behind the parameters, that no earlier local holds
/// when its scope begins.
pub open spec fn slot_for(prev: Seq<VarInfoV>, record: VarInfoV, numparams: u8) -> Option<u8> {
    if record.is_parameter {
        if parameter_count(prev) <= 255 {
            Some(parameter_count(prev) as u8)
        } else {
            None
        }
    } else {
        first_free(prev, numparams as int, record.scope_begin)
    }
}

/// The first `n` records with their slots, unless one of them finds no
/// slot.
pub open spec fn slotted(records: Seq<VarInfoV>, numparams: u8, n: nat) -> Option<Seq<VarInfoV>>
    decreases n,
{
    if n == 0 {
        Some(seq![])
    } else {
        match slotted(records, numparams, (n - 1) as nat) {
            None => None,
            Some(prev) => match slot_for(prev, records[n - 1], numparams) {
                None => None,
                Some(slot) => Some(prev.push(VarInfoV { slot, ..records[n - 1] })),
            },
        }
    }
}

/// The var-info records with their slots.
pub open spec fn scan_var_info(b: Seq<u8>, p: int, numparams: u8) -> Scan<Seq<VarInfoV>> {
    let records = scan_var_records(b, p, 0, seq![]);
    match records.out {
        Err(f) => stop(f, records.pos),
        Ok(rs) => match slotted(rs, numparams, rs.len()) {
            None => stop(invalid(records.pos, "var-info needs more than 256 slots"@), records.pos),
            Some(out) => done(out, records.pos),
        },
    }
}

/// Whether the scopes of two variables have an instruction in common.
pub open spec fn scopes_meet(a: VarInfoV, b: VarInfoV) -> bool {
    a.scope_begin <= b.scope_end && b.scope_begin <= a.scope_end
}

/// Whether no variable from `i` to `j` is a parameter.
pub open spec fn no_parameter(vars: Seq<VarInfoV>, i: int, j: int) -> bool {
    forall|k: int| i <= k < j ==> !(#[trigger] vars[k]).is_parameter
}

/// Whether parameters have the slots from 0 up, in order.
#[verifier::opaque]
pub open spec fn parameters_first(vars: Seq<VarInfoV>) -> bool {
    &&& forall|j: int|
        0 <= j < vars.len() && vars[j].is_parameter && #[trigger] no_parameter(vars, 0, j)
            ==> vars[j].slot == 0
    &&& forall|i: int, j: int|
        0 <= i < j < vars.len() && vars[i].is_parameter && vars[j].is_parameter
            && #[trigger] no_parameter(vars, i + 1, j) ==> vars[j].slot == vars[i].slot + 1
}

/// Whether locals stay out of the parameters' slots, and no two whose
/// scopes meet share one.
#[verifier::opaque]
pub open spec fn locals_apart(vars: Seq<VarInfoV>, numparams: u8) -> bool {
    &&& forall|i: int|
        0 <= i < vars.len() && !(#[trigger] vars[i]).is_parameter ==> vars[i].slot >= numparams
    &&& forall|i: int, j: int|
        0 <= i < vars.len() && 0 <= j < vars.len() && i != j && !(#[trigger] vars[i]).is_parameter
            && !(#[trigger] vars[j]).is_parameter && scopes_meet(vars[i], vars[j]) ==> vars[i].slot
            != vars[j].slot
}

/// Whether an earlier local than `i` is in `slot` when local `i` begins.
pub open spec fn taken_before(vars: Seq<VarInfoV>, i: int, slot: int) -> bool {
    exists|j: int|
        0 <= j < i && !(#[trigger] vars[j]).is_parameter && vars[j].slot == slot
            && vars[j].scope_end >= vars[i].scope_begin
}

/// Whether every local has the lowest slot that is left.
#[verifier::opaque]
pub open spec fn locals_packed(vars: Seq<VarInfoV>, numparams: u8) -> bool {
    forall|i: int, s: int|
        0 <= i < vars.len() && !vars[i].is_parameter && numparams <= s < vars[i].slot
            ==> #[trigger] taken_before(vars, i, s)
}

/// Whether two lists of variables differ in nothing but slots.
pub open spec fn same_but_slots(vars: Seq<VarInfoV>, records: Seq<VarInfoV>) -> bool {
    &&& vars.len() == records.len()
    &&& forall|i: int|
        0 <= i < vars.len() ==> (#[trigger] vars[i]) == (VarInfoV {
            slot: vars[i].slot,
            ..records[i]
        })
}

proof fn lemma_first_free(prev: Seq<VarInfoV>, from: int, begin: u32)
    requires
        0 <= from,
    ensures
        match first_free(prev, from, begin) {
            Some(slot) => {
                &&& from <= slot
                &&& !slot_held(prev, slot as int, begin)
                &&& forall|s: int| from <= s < slot ==> slot_held(prev, s, begin)
            },
            None => forall|s: int| from <= s <= 255 ==> slot_held(prev, s, begin),
        },
    decreases 256 - from,
{
    if from <= 255 && slot_held(prev, from, begin) {
        lemma_first_free(prev, from + 1, begin);
    }
}

/// Parameters are numbered by those before them.
proof fn lemma_parameter_count(vars: Seq<VarInfoV>, i: int)
    requires
        0 <= i <= vars.len(),
        forall|k: int| i <= k < vars.len() ==> !(#[trigger] vars[k]).is_parameter,
    ensures
        parameter_count(vars) == parameter_count(vars.take(i)),
    decreases vars.len(),
{
    if i < vars.len() {
        lemma_parameter_count(vars.drop_last(), i);
        assert(vars.drop_last().take(i) =~= vars.take(i));
    } else {
        assert(vars.take(i) =~= vars);
    }
}

proof fn lemma_slotted(records: Seq<VarInfoV>, numparams: u8, n: nat)
    requires
        n <= records.len(),
    ensures
        slotted(records, numparams, n) matches Some(vars) ==> {
            &&& same_but_slots(vars, records.take(n as int))
            &&& locals_apart(vars, numparams)
            &&& locals_packed(vars, numparams)
            &&& forall|i: int|
                0 <= i < n && (#[trigger] vars[i]).is_parameter ==> vars[i].slot == parameter_count(
                    vars.take(i),
                )
        },
    decreases n,
{
    reveal(locals_apart);
    reveal(locals_packed);
    if n > 0 {
        lemma_slotted(records, numparams, (n - 1) as nat);
        if let Some(vars) = slotted(records, numparams, n) {
            let prev = slotted(records, numparams, (n - 1) as nat)->Some_0;
            let last = vars.last();
            assert(vars.drop_last() =~= prev);
            assert(records.take(n as int).last() == records[n - 1]);
            if !last.is_parameter {
                lemma_first_free(prev, numparams as int, last.scope_begin);
            }
            assert forall|i: int| 0 <= i < n implies (#[trigger] vars[i]) == (VarInfoV {
                slot: vars[i].slot,
                ..records.take(n as int)[i]
            }) by {
                if i < n - 1 {
                    assert(vars[i] == prev[i]);
                    assert(records.take(n as int)[i] == records.take(n - 1)[i]);
                }
            }
            assert forall|i: int| 0 <= i < n && !(#[trigger] vars[i]).is_parameter implies
                vars[i].slot >= numparams by {
                if i < n - 1 {
                    assert(vars[i] == prev[i]);
                }
            }
            assert forall|i: int, j: int|
                0 <= i < n && 0 <= j < n && i != j && !(#[trigger] vars[i]).is_parameter && !(
                #[trigger] vars[j]).is_parameter && scopes_meet(vars[i], vars[j]) implies
                vars[i].slot != vars[j].slot by {
                if i < n - 1 && j < n - 1 {
                    assert(vars[i] == prev[i] && vars[j] == prev[j]);
                } else if i < n - 1 {
                    assert(vars[i] == prev[i]);
                    if vars[i].slot == last.slot {
                        assert(slot_held(prev, last.slot as int, last.scope_begin));
                    }
                } else {
                    assert(vars[j] == prev[j]);
                    if vars[j].slot == last.slot {
                        assert(slot_held(prev, last.slot as int, last.scope_begin));
                    }
                }
            }
            assert forall|i: int, s: int|
                0 <= i < n && !vars[i].is_parameter && numparams <= s
                    < vars[i].slot implies #[trigger] taken_before(vars, i, s) by {
                if i < n - 1 {
                    assert(taken_before(prev, i, s));
                    let j = choose|j: int|
                        0 <= j < i && !(#[trigger] prev[j]).is_parameter && prev[j].slot == s
                            && prev[j].scope_end >= prev[i].scope_begin;
                    assert(vars[j] == prev[j] && vars[i] == prev[i]);
                } else {
                    assert(slot_held(prev, s, last.scope_begin));
                    let j = choose|j: int|
                        0 <= j < prev.len() && !(#[trigger] prev[j]).is_parameter && prev[j].slot
                            == s && prev[j].scope_end >= last.scope_begin;
                    assert(vars[j] == prev[j]);
                }
            }
            assert forall|i: int| 0 <= i < n && (#[trigger] vars[i]).is_parameter implies
                vars[i].slot == parameter_count(vars.take(i)) by {
                if i < n - 1 {
                    assert(vars[i] == prev[i]);
                    assert(vars.take(i) =~= prev.take(i));
                } else {
                    assert(vars.take(i) =~= prev);
                }
            }
        }
    }
}

/// Which register a variable is in: parameters are in the registers from
/// 0 up, in order. Every local is in one behind the parameters', no two
/// locals whose scopes meet share one, and each has the lowest that is
/// left when it begins.
pub proof fn law_variables_have_their_own_registers(records: Seq<VarInfoV>, numparams: u8)
    ensures
        slotted(records, numparams, records.len()) matches Some(vars) ==> {
            &&& same_but_slots(vars, records)
            &&& parameters_first(vars)
            &&& locals_apart(vars, numparams)
            &&& locals_packed(vars, numparams)
        },
{
    lemma_slotted(records, numparams, records.len());
    assert(records.take(records.len() as int) =~= records);
    if let Some(vars) = slotted(records, numparams, records.len()) {
        lemma_parameters_first(vars);
    }
}

proof fn lemma_parameters_first(vars: Seq<VarInfoV>)
    requires
        forall|i: int|
            0 <= i < vars.len() && (#[trigger] vars[i]).is_parameter ==> vars[i].slot
                == parameter_count(vars.take(i)),
    ensures
        parameters_first(vars),
{
    reveal(parameters_first);
    assert forall|j: int|
        0 <= j < vars.len() && vars[j].is_parameter && #[trigger] no_parameter(
            vars,
            0,
            j,
        ) implies vars[j].slot == 0 by {
        let before = vars.take(j);
        lemma_parameter_count(before, 0);
        assert(before.take(0) =~= seq![]);
    }
    assert forall|i: int, j: int|
        0 <= i < j < vars.len() && vars[i].is_parameter && vars[j].is_parameter
            && #[trigger] no_parameter(vars, i + 1, j) implies vars[j].slot == vars[i].slot + 1 by {
        let before = vars.take(j);
        lemma_parameter_count(before, i + 1);
        assert(before.take(i + 1).drop_last() =~= vars.take(i));
        assert(before.take(i + 1).last() == vars[i]);
    }
}

/// The variables of a debug section have registers of their own.
pub proof fn law_debug_sections_keep_variables_apart(b: Seq<u8>, p: int, h: ProtoHead)
    ensures
        scan_debug(b, p, h).out matches Ok(d) ==> {
            &&& parameters_first(d.var_info)
            &&& locals_apart(d.var_info, h.numparams)
            &&& locals_packed(d.var_info, h.numparams)
        },
{
    let line_info = scan_many(lines(b, h.firstline, h.numline), p, h.numbc as nat, seq![]);
    let names = scan_many(cstrings(b), line_info.pos, h.numuv as nat, seq![]);
    let records = scan_var_records(b, names.pos, 0, seq![]);
    if let Ok(rs) = records.out {
        law_variables_have_their_own_registers(rs, h.numparams);
    }
}

/// Variables are refused only when one finds every register taken: a
/// parameter behind 256 others, or a local when each register behind the
/// parameters' holds an earlier local.
pub proof fn law_registers_run_out(records: Seq<VarInfoV>, numparams: u8, n: nat)
    requires
        n <= records.len(),
        slotted(records, numparams, n) is None,
    ensures
        exists|i: int|
            {
                &&& 0 <= i < n
                &&& slotted(records, numparams, i as nat) matches Some(prev)
                &&& if (#[trigger] records[i]).is_parameter {
                    parameter_count(prev) >= 256
                } else {
                    forall|s: int|
                        numparams <= s <= 255 ==> slot_held(prev, s, records[i].scope_begin)
                }
            },
    decreases n,
{
    if n > 0 {
        match slotted(records, numparams, (n - 1) as nat) {
            None => law_registers_run_out(records, numparams, (n - 1) as nat),
            Some(prev) => {
                let i = n - 1;
                if !records[i].is_parameter {
                    lemma_first_free(prev, numparams as int, records[i].scope_begin);
                }
                assert(slotted(records, numparams, i as nat) == Some(prev));
            },
        }
    }
}

/// The reason given for a debug section of another size than declared.
pub open spec fn debug_size_reason(declared: nat, consumed: nat) -> Seq<char> {
    "debug section length mismatch: declared "@ + text::decimal(declared) + " bytes but consumed "@
        + text::decimal(consumed)
}

/// The debug section of a prototype with head `h`.
pub open spec fn scan_debug(b: Seq<u8>, p: int, h: ProtoHead) -> Scan<DebugInfoV> {
    let line_info = scan_many(lines(b, h.firstline, h.numline), p, h.numbc as nat, seq![]);
    match line_info.out {
        Err(f) => stop(f, line_info.pos),
        Ok(line_info_v) => {
            let names = scan_many(cstrings(b), line_info.pos, h.numuv as nat, seq![]);
            match names.out {
                Err(f) => stop(f, names.pos),
                Ok(names_v) => {
                    let vars = scan_var_info(b, names.pos, h.numparams);
                    match vars.out {
                        Err(f) => stop(f, vars.pos),
                        Ok(vars_v) => if vars.pos - p != h.sizedbg {
                            stop(
                                invalid(
                                    vars.pos,
                                    debug_size_reason(h.sizedbg as nat, (vars.pos - p) as nat),
                                ),
                                vars.pos,
                            )
                        } else {
                            done(
                                DebugInfoV {
                                    firstline: h.firstline,
                                    numline: h.numline,
                                    line_info: line_info_v,
                                    upvalue_names: names_v,
                                    var_info: vars_v,
                                },
                                vars.pos,
                            )
                        },
                    }
                },
            }
        },
    }
}

// ---- The format: prototypes ------------------------------------------------

/// The fixed part at the start of a prototype. The last three fields
/// are 0 when the debug sizing is absent.
#[derive(Copy, Clone)]
pub struct ProtoHead {
    pub flags: u8,
    pub numparams: u8,
    pub framesize: u8,
    pub numuv: u8,
    pub numkgc: u32,
    pub numkn: u32,
    pub numbc: u32,
    pub sizedbg: u32,
    pub firstline: u32,
    pub numline: u32,
}

impl View for ProtoHead {
    type V = ProtoHead;

    open spec fn view(&self) -> ProtoHead {
        *self
    }
}

/// Whether a prototype's flag byte has no unknown bit.
pub open spec fn proto_flags_known(flags: u8) -> bool {
    flags & !(PROTO_CHILD | PROTO_VARARG | PROTO_FFI) == 0
}

/// The reason given for an unknown prototype flag.
pub open spec fn proto_flags_reason(flags: u8) -> Seq<char> {
    "unknown proto flags byte 0x"@ + text::zero_padded(text::hex(flags as nat), 2)
}

/// The four one-byte fields of a prototype.
pub open spec fn scan_head_bytes(b: Seq<u8>, p: int) -> Scan<(u8, u8, u8, u8)> {
    let flags = reader::scan_u8(b, p);
    match flags.out {
        Err(f) => stop(f, flags.pos),
        Ok(fl) => if !proto_flags_known(fl) {
            stop(invalid(p, proto_flags_reason(fl)), flags.pos)
        } else {
            let numparams = reader::scan_u8(b, flags.pos);
            match numparams.out {
                Err(f) => stop(f, numparams.pos),
                Ok(np) => {
                    let framesize = reader::scan_u8(b, numparams.pos);
                    match framesize.out {
                        Err(f) => stop(f, framesize.pos),
                        Ok(fs) => {
                            let numuv = reader::scan_u8(b, framesize.pos);
                            match numuv.out {
                                Err(f) => stop(f, numuv.pos),
                                Ok(nu) => done((fl, np, fs, nu), numuv.pos),
                            }
                        },
                    }
                },
            }
        },
    }
}

/// The three counts of a prototype.
pub open spec fn scan_head_counts(b: Seq<u8>, p: int) -> Scan<(u32, u32, u32)> {
    let numkgc = reader::scan_uleb(b, p);
    match numkgc.out {
        Err(f) => stop(f, numkgc.pos),
        Ok(nk) => {
            let numkn = reader::scan_uleb(b, numkgc.pos);
            match numkn.out {
                Err(f) => stop(f, numkn.pos),
                Ok(nn) => {
                    let numbc = reader::scan_uleb(b, numkn.pos);
                    match numbc.out {
                        Err(f) => stop(f, numbc.pos),
                        Ok(nb) => done((nk, nn, nb), numbc.pos),
                    }
                },
            }
        },
    }
}

/// The debug sizing of a prototype: the size, and with a size that is
/// not zero the first line and the number of lines.
pub open spec fn scan_head_debug(b: Seq<u8>, p: int, stripped: bool) -> Scan<(u32, u32, u32)> {
    if stripped {
        done((0, 0, 0), p)
    } else {
        let sizedbg = reader::scan_uleb(b, p);
        match sizedbg.out {
            Err(f) => stop(f, sizedbg.pos),
            Ok(sd) => if sd == 0 {
                done((0, 0, 0), sizedbg.pos)
            } else {
                let firstline = reader::scan_uleb(b, sizedbg.pos);
                match firstline.out {
                    Err(f) => stop(f, firstline.pos),
                    Ok(fl) => {
                        let numline = reader::scan_uleb(b, firstline.pos);
                        match numline.out {
                            Err(f) => stop(f, numline.pos),
                            Ok(nl) => done((sd, fl, nl), numline.pos),
                        }
                    },
                }
            },
        }
    }
}

/// The head of a prototype.
pub open spec fn scan_head(b: Seq<u8>, p: int, stripped: bool) -> Scan<ProtoHead> {
    let bytes = scan_head_bytes(b, p);
    match bytes.out {
        Err(f) => stop(f, bytes.pos),
        Ok((flags, numparams, framesize, numuv)) => {
            let counts = scan_head_counts(b, bytes.pos);
            match counts.out {
                Err(f) => stop(f, counts.pos),
                Ok((numkgc, numkn, numbc)) => {
                    let debug = scan_head_debug(b, counts.pos, stripped);
                    match debug.out {
                        Err(f) => stop(f, debug.pos),
                        Ok((sizedbg, firstline, numline)) => done(
                            ProtoHead {
                                flags,
                                numparams,
                                framesize,
                                numuv,
                                numkgc,
                                numkn,
                                numbc,
                                sizedbg,
                                firstline,
                                numline,
                            },
                            debug.pos,
                        ),
                    }
                },
            }
        },
    }
}

/// The header instruction that stands in front of a prototype's own.
pub open spec fn header_inst(h: ProtoHead) -> Instruction {
    Instruction {
        op: if ir::proto_vararg(h.flags) {
            Opcode::Funcv
        } else {
            Opcode::Funcf
        },
        a: h.framesize,
        b_or_d: 0,
        c: 0,
    }
}

/// The optional debug section of a prototype with head `h`.
pub open spec fn scan_debug_opt(b: Seq<u8>, p: int, h: ProtoHead) -> Scan<Option<DebugInfoV>> {
    if h.sizedbg > 0 {
        let debug = scan_debug(b, p, h);
        match debug.out {
            Err(f) => stop(f, debug.pos),
            Ok(d) => done(Some(d), debug.pos),
        }
    } else {
        done(None, p)
    }
}

/// What follows the head of a prototype: instructions, upvalue
/// descriptors, GC constants, number constants, debug section.
pub open spec fn scan_body(b: Seq<u8>, p: int, h: ProtoHead) -> Scan<ProtoV> {
    let code = scan_many(insts(b), p, h.numbc as nat, seq![header_inst(h)]);
    match code.out {
        Err(f) => stop(f, code.pos),
        Ok(code_v) => {
            let uvs = scan_many(upvalues(b), code.pos, h.numuv as nat, seq![]);
            match uvs.out {
                Err(f) => stop(f, uvs.pos),
                Ok(uvs_v) => {
                    let gcs = scan_many(gc_consts(b), uvs.pos, h.numkgc as nat, seq![]);
                    match gcs.out {
                        Err(f) => stop(f, gcs.pos),
                        Ok(gcs_v) => {
                            let nums = scan_many(num_consts(b), gcs.pos, h.numkn as nat, seq![]);
                            match nums.out {
                                Err(f) => stop(f, nums.pos),
                                Ok(nums_v) => {
                                    let debug = scan_debug_opt(b, nums.pos, h);
                                    match debug.out {
                                        Err(f) => stop(f, debug.pos),
                                        Ok(debug_v) => done(
                                            ProtoV {
                                                flags: h.flags,
                                                numparams: h.numparams,
                                                framesize: h.framesize,
                                                upvalues: uvs_v,
                                                gc_consts: gcs_v,
                                                num_consts: nums_v,
                                                insts: code_v,
                                                debug: debug_v,
                                            },
                                            debug.pos,
                                        ),
                                    }
                                },
                            }
                        },
                    }
                },
            }
        },
    }
}

/// A prototype.
#[verifier::opaque]
pub open spec fn scan_proto(b: Seq<u8>, p: int, stripped: bool) -> Scan<ProtoV> {
    let head = scan_head(b, p, stripped);
    match head.out {
        Err(f) => stop(f, head.pos),
        Ok(h) => scan_body(b, head.pos, h),
    }
}

// ---- The format: the module -------------------------------------------------

/// A fault inside a block, with its offset counted from the start of
/// the input.
pub open spec fn lifted(fault: Fault, base: int) -> Fault {
    match fault {
        Fault::InvalidBytecode { offset, reason } => invalid(base + offset, reason),
        Fault::NotImplemented => Fault::NotImplemented,
    }
}

/// The reason given for a prototype of another size than declared.
pub open spec fn proto_size_reason(declared: nat, consumed: nat) -> Seq<char> {
    "proto length mismatch: header declared "@ + text::decimal(declared)
        + " bytes but parser consumed "@ + text::decimal(consumed)
}

/// The prototypes from `p` to the zero length that ends them, after
/// those of `so_far`. Each is a length and a block of that length.
pub open spec fn scan_protos(b: Seq<u8>, p: int, stripped: bool, so_far: Seq<ProtoV>) -> Scan<
    Seq<ProtoV>,
>
    decreases b.len() - p,
{
    let size = reader::scan_uleb(b, p);
    match size.out {
        Err(f) => stop(f, size.pos),
        Ok(n) => if n == 0 {
            if so_far.len() == 0 {
                stop(
                    invalid(size.pos, "no protos in dump (expected at least the main chunk)"@),
                    size.pos,
                )
            } else {
                done(so_far, size.pos)
            }
        } else {
            let block = reader::scan_bytes(b, size.pos, n as nat);
            match block.out {
                Err(f) => stop(f, block.pos),
                Ok(pdata) => {
                    let proto = scan_proto(pdata, 0, stripped);
                    match proto.out {
                        Err(f) => stop(lifted(f, size.pos), block.pos),
                        Ok(v) => if proto.pos != n {
                            stop(
                                invalid(
                                    size.pos + proto.pos,
                                    proto_size_reason(n as nat, proto.pos as nat),
                                ),
                                block.pos,
                            )
                        } else {
                            scan_protos(b, block.pos, stripped, so_far.push(v))
                        },
                    }
                },
            }
        },
    }
}

/// The reason given for wrong magic bytes.
pub open spec fn magic_reason(magic: Seq<u8>) -> Seq<char> {
    "bad magic bytes 0x"@ + text::zero_padded(text::hex(magic[0] as nat), 2) + " 0x"@
        + text::zero_padded(text::hex(magic[1] as nat), 2) + " 0x"@ + text::zero_padded(
        text::hex(magic[2] as nat),
        2,
    ) + " (expected 1B 4C 4A)"@
}

/// The reason given for an unsupported version.
pub open spec fn version_reason(version: u8) -> Seq<char> {
    "unsupported bytecode version 0x"@ + text::zero_padded(text::hex(version as nat), 2)
        + " (only 0x02 supported)"@
}

/// Whether the header flags have no unknown bit. The writer's
/// deterministic bit, 0x80000000, is allowed.
pub open spec fn header_flags_known(flags: u32) -> bool {
    flags & !(FLAGS_KNOWN_MASK | 0x8000_0000) == 0
}

/// The reason given for an unknown header flag.
pub open spec fn header_flags_reason(flags: u32) -> Seq<char> {
    "unknown header flags 0x"@ + text::zero_padded(text::hex(flags as nat), 8)
}

/// The chunk name of a dump with the given flags.
pub open spec fn scan_chunkname(b: Seq<u8>, p: int, flags: u32) -> Scan<Option<Seq<u8>>> {
    if ir::flags_stripped(flags) {
        done(None, p)
    } else {
        let size = reader::scan_uleb(b, p);
        match size.out {
            Err(f) => stop(f, size.pos),
            Ok(n) => {
                let name = reader::scan_bytes(b, size.pos, n as nat);
                match name.out {
                    Err(f) => stop(f, name.pos),
                    Ok(bytes) => done(Some(bytes), name.pos),
                }
            },
        }
    }
}

/// The header of a dump, from the start of the input: the magic bytes
/// `ESC L J`, version 2, the flags, the chunk name.
pub open spec fn scan_header(b: Seq<u8>) -> Scan<ModuleHeaderV> {
    let magic = reader::scan_bytes(b, 0, 3);
    match magic.out {
        Err(f) => stop(f, magic.pos),
        Ok(m) => if m[0] != 0x1b || m[1] != 0x4c || m[2] != 0x4a {
            stop(invalid(0, magic_reason(m)), magic.pos)
        } else {
            let version = reader::scan_u8(b, magic.pos);
            match version.out {
                Err(f) => stop(f, version.pos),
                Ok(v) => if v != 0x02 {
                    stop(invalid(3, version_reason(v)), version.pos)
                } else {
                    let flags = reader::scan_uleb(b, version.pos);
                    match flags.out {
                        Err(f) => stop(f, flags.pos),
                        Ok(fl) => if !header_flags_known(fl) {
                            stop(invalid(4, header_flags_reason(fl)), flags.pos)
                        } else if fl & FLAG_BE != 0 {
                            stop(
                                invalid(4, "big-endian bytecode is not supported"@),
                                flags.pos,
                            )
                        } else {
                            let name = scan_chunkname(b, flags.pos, fl);
                            match name.out {
                                Err(f) => stop(f, name.pos),
                                Ok(chunkname) => done(
                                    ModuleHeaderV { flags: fl, chunkname },
                                    name.pos,
                                ),
                            }
                        },
                    }
                },
            }
        },
    }
}

/// The module that the input holds.
pub open spec fn scan_module(b: Seq<u8>) -> Result<ModuleV, Fault> {
    let header = scan_header(b);
    match header.out {
        Err(f) => Err(f),
        Ok(h) => {
            let protos = scan_protos(b, header.pos, ir::flags_stripped(h.flags), seq![]);
            match protos.out {
                Err(f) => Err(f),
                Ok(ps) => Ok(ModuleV { header: h, protos: ps }),
            }
        },
    }
}

/// Reading prototypes ends with at least one.
proof fn lemma_some_prototypes(b: Seq<u8>, p: int, stripped: bool, so_far: Seq<ProtoV>)
    ensures
        scan_protos(b, p, stripped, so_far).out matches Ok(ps) ==> ps.len() > 0 && so_far.len()
            <= ps.len() && (forall|i: int| 0 <= i < so_far.len() ==> ps[i] == so_far[i]),
    decreases b.len() - p,
{
    let size = reader::scan_uleb(b, p);
    if let Ok(n) = size.out {
        if n != 0 {
            let block = reader::scan_bytes(b, size.pos, n as nat);
            if let Ok(pdata) = block.out {
                let proto = scan_proto(pdata, 0, stripped);
                if let Ok(v) = proto.out {
                    if proto.pos == n {
                        lemma_some_prototypes(b, block.pos, stripped, so_far.push(v));
                        if let Ok(ps) = scan_protos(b, p, stripped, so_far).out {
                            assert forall|i: int| 0 <= i < so_far.len() implies ps[i]
                                == so_far[i] by {
                                assert(so_far.push(v)[i] == so_far[i]);
                            }
                        }
                    }
                }
            }
        }
    }
}

/// An accepted dump has a little-endian header without unknown flags, and
/// at least the main prototype.
pub proof fn law_accepted_dumps(b: Seq<u8>)
    ensures
        scan_module(b) matches Ok(m) ==> {
            &&& m.protos.len() > 0
            &&& m.header.flags & 0x01 == 0
            &&& m.header.flags & 0x7fff_fff0 == 0
            &&& m.header.chunkname is None <==> m.header.flags & 0x02 != 0
        },
{
    let header = scan_header(b);
    if let Ok(h) = header.out {
        let flags = h.flags;
        assert(flags & !(0x0fu32 | 0x8000_0000u32) == flags & 0x7fff_fff0) by (bit_vector);
        lemma_some_prototypes(b, header.pos, ir::flags_stripped(h.flags), seq![]);
    }
}

/// Every prototype of an accepted dump fills the block that is declared
/// for it, and the list ends at a length of zero.
pub proof fn law_prototypes_fill_their_blocks(
    b: Seq<u8>,
    p: int,
    stripped: bool,
    so_far: Seq<ProtoV>,
)
    ensures
        scan_protos(b, p, stripped, so_far).out matches Ok(ps) ==> {
            let size = reader::scan_uleb(b, p);
            &&& size.out is Ok
            &&& size.out->Ok_0 == 0 ==> ps == so_far && scan_protos(b, p, stripped, so_far).pos
                == size.pos
            &&& size.out->Ok_0 != 0 ==> {
                let n = size.out->Ok_0 as int;
                let proto = scan_proto(b.subrange(size.pos, size.pos + n), 0, stripped);
                &&& size.pos + n <= b.len()
                &&& proto.out is Ok
                &&& proto.pos == n
                &&& ps.len() > so_far.len()
                &&& ps[so_far.len() as int] == proto.out->Ok_0
                &&& scan_protos(b, p, stripped, so_far) == scan_protos(
                    b,
                    size.pos + n,
                    stripped,
                    so_far.push(proto.out->Ok_0),
                )
            }
        },
{
    let size = reader::scan_uleb(b, p);
    if let Ok(n) = size.out {
        if n != 0 {
            let block = reader::scan_bytes(b, size.pos, n as nat);
            if let Ok(pdata) = block.out {
                let proto = scan_proto(pdata, 0, stripped);
                if let Ok(v) = proto.out {
                    lemma_some_prototypes(b, block.pos, stripped, so_far.push(v));
                    if let Ok(ps) = scan_protos(b, block.pos, stripped, so_far.push(v)).out {
                        assert(ps[so_far.len() as int] == so_far.push(v)[so_far.len() as int]);
                    }
                }
            }
        }
    }
}

/// A debug section has the size that is declared for it.
pub proof fn law_debug_sections_have_their_size(b: Seq<u8>, p: int, h: ProtoHead)
    ensures
        scan_debug(b, p, h).out is Ok ==> scan_debug(b, p, h).pos == p + h.sizedbg,
        scan_debug_opt(b, p, h).out matches Ok(d) ==> (d is Some <==> h.sizedbg > 0)
            && scan_debug_opt(b, p, h).pos == p + h.sizedbg,
{
}

} // verus!
