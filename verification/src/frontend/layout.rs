//! Where the fields of a dump stand, byte by byte.

use vstd::prelude::*;

use crate::frontend;
use crate::frontend::grammar;
use crate::frontend::grammar::ProtoHead;
use crate::frontend::reader;
use crate::frontend::reader::Scan;
use crate::ir;
use crate::ir::{GcConstV, Instruction, KtabKV, NumConst, Opcode, UpvalDesc};

verus! {

// ---- Constants ---------------------------------------------------------------------

/// A byte below 128 is a whole LEB128 value.
proof fn lemma_short_value(b: Seq<u8>, p: int)
    requires
        0 <= p < b.len(),
        b[p] < 0x80,
    ensures
        reader::scan_uleb(b, p) == (Scan { out: Ok(b[p] as u32), pos: p + 1 }),
{
    let s = b.subrange(p, p + 1);
    assert(reader::leb_run(b, p, 5) == 0);
    assert(s.drop_first() =~= seq![]);
    assert(reader::leb_value(s.drop_first()) == 0);
    assert(reader::leb_value(s) == b[p]);
}

/// A 64-bit value is its low half, then its high half.
pub proof fn law_low_half_comes_first(b: Seq<u8>, p: int)
    ensures
        grammar::scan_halves(b, p).out matches Ok(v) ==> {
            let lo = reader::scan_uleb(b, p);
            let hi = reader::scan_uleb(b, lo.pos);
            &&& lo.out == Ok::<u32, crate::Fault>((v % 0x1_0000_0000) as u32)
            &&& hi.out == Ok::<u32, crate::Fault>((v / 0x1_0000_0000) as u32)
            &&& grammar::scan_halves(b, p).pos == hi.pos
        },
{
}

/// The first byte of a constant says what it is: a child prototype, a
/// table, a signed or an unsigned 64-bit integer, a complex number, or,
/// from 5 on, a string of as many bytes as it exceeds 5.
pub proof fn law_constant_tags(b: Seq<u8>, p: int)
    requires
        0 <= p < b.len(),
        b[p] < 0x80,
    ensures
        b[p] == 0 ==> grammar::scan_gc_const(b, p).out is Ok,
        b[p] >= 5 ==> (grammar::scan_gc_const(b, p).out is Ok <==> p + b[p] - 4 <= b.len()),
        grammar::scan_gc_const(b, p).out matches Ok(c) ==> {
            let end = grammar::scan_gc_const(b, p).pos;
            &&& b[p] == 0 ==> c is Child && end == p + 1
            &&& b[p] == 1 ==> c is Tab
            &&& b[p] == 2 ==> (c matches GcConstV::I64(v) && grammar::scan_halves(b, p + 1)
                == grammar::done(v, end))
            &&& b[p] == 3 ==> (c matches GcConstV::U64(v) && grammar::scan_halves(b, p + 1)
                == grammar::done(v, end))
            &&& b[p] == 4 ==> (c matches GcConstV::Complex { real: re, imag: im } && {
                let mid = grammar::scan_halves(b, p + 1).pos;
                &&& grammar::scan_halves(b, p + 1) == grammar::done(re, mid)
                &&& grammar::scan_halves(b, mid) == grammar::done(im, end)
            })
            &&& b[p] >= 5 ==> end == p + b[p] - 4 && (c matches GcConstV::Str(s) && s
                == b.subrange(p + 1, end))
        },
{
    lemma_short_value(b, p);
}

/// The first byte of a template's key or value says what it is: nil,
/// false, true, an integer, a float, or, from 5 on, a string of as many
/// bytes as it exceeds 5.
pub proof fn law_template_tags(b: Seq<u8>, p: int)
    requires
        0 <= p < b.len(),
        b[p] < 0x80,
    ensures
        b[p] <= 2 ==> grammar::scan_ktabk(b, p).out is Ok,
        b[p] >= 5 ==> (grammar::scan_ktabk(b, p).out is Ok <==> p + b[p] - 4 <= b.len()),
        grammar::scan_ktabk(b, p).out matches Ok(k) ==> {
            let end = grammar::scan_ktabk(b, p).pos;
            &&& b[p] == 0 ==> k is Nil && end == p + 1
            &&& b[p] == 1 ==> k is False && end == p + 1
            &&& b[p] == 2 ==> k is True && end == p + 1
            &&& b[p] == 3 ==> (k matches KtabKV::Int(n) && n < 0x1_0000_0000 && reader::scan_uleb(
                b,
                p + 1,
            ) == grammar::done(n as u32, end))
            &&& b[p] == 4 ==> (k matches KtabKV::Num(bits) && grammar::scan_halves(b, p + 1)
                == grammar::done(bits, end))
            &&& b[p] >= 5 ==> end == p + b[p] - 4 && (k matches KtabKV::Str(s) && s
                == b.subrange(p + 1, end))
        },
{
    lemma_short_value(b, p);
}

/// A template counts its array part, then its hash part; the two follow
/// in that order, each hash entry its key first.
pub proof fn law_template_parts(b: Seq<u8>, p: int)
    ensures
        grammar::scan_table(b, p).out matches Ok(t) ==> {
            let arrays = reader::scan_uleb(b, p);
            let hashes = reader::scan_uleb(b, arrays.pos);
            &&& arrays.out matches Ok(n) && t.array.len() == n
            &&& hashes.out matches Ok(n) && t.hash.len() == n
            &&& t.array.len() > 0 ==> grammar::scan_ktabk(b, hashes.pos).out == Ok::<
                KtabKV,
                crate::Fault,
            >(t.array[0])
            &&& t.array.len() == 0 && t.hash.len() > 0 ==> {
                let key = grammar::scan_ktabk(b, hashes.pos);
                &&& key.out == Ok::<KtabKV, crate::Fault>(t.hash[0].0)
                &&& grammar::scan_ktabk(b, key.pos).out == Ok::<KtabKV, crate::Fault>(t.hash[0].1)
            }
        },
{
    let arrays = reader::scan_uleb(b, p);
    if let Ok(na) = arrays.out {
        let hashes = reader::scan_uleb(b, arrays.pos);
        if let Ok(nh) = hashes.out {
            let array = grammar::scan_many(grammar::ktabks(b), hashes.pos, na as nat, seq![]);
            lemma_many(grammar::ktabks(b), hashes.pos, na as nat, seq![]);
            lemma_many(grammar::ktab_pairs(b), array.pos, nh as nat, seq![]);
        }
    }
}

/// Reading several items gives as many, the first of them from where the
/// reading starts, behind those already there.
proof fn lemma_many<T>(one: spec_fn(int) -> Scan<T>, p: int, n: nat, so_far: Seq<T>)
    ensures
        grammar::scan_many(one, p, n, so_far).out matches Ok(items) ==> {
            &&& items.len() == so_far.len() + n
            &&& items.take(so_far.len() as int) == so_far
            &&& n > 0 ==> one(p).out == Ok::<T, crate::Fault>(items[so_far.len() as int])
            &&& n == 0 ==> grammar::scan_many(one, p, n, so_far).pos == p
        },
    decreases n,
{
    if n > 0 {
        if let Ok(item) = one(p).out {
            let more = so_far.push(item);
            lemma_many(one, one(p).pos, (n - 1) as nat, more);
            if let Ok(items) = grammar::scan_many(one, p, n, so_far).out {
                assert(items.take(more.len() as int)[so_far.len() as int] == item);
                assert(items.take(so_far.len() as int) =~= items.take(more.len() as int).take(
                    so_far.len() as int,
                ));
                assert(more.take(so_far.len() as int) =~= so_far);
            }
        }
    } else {
        assert(so_far.take(so_far.len() as int) =~= so_far);
    }
}

/// The lowest bit of a number constant says whether it is a float: an
/// integer is the rest of its value, a float has that as its low half and
/// the next value as its high half.
pub proof fn law_number_tags(b: Seq<u8>, p: int)
    requires
        0 <= p < b.len(),
    ensures
        grammar::scan_num_const(b, p).out matches Ok(c) ==> {
            let head = reader::scan_uleb33(b, p);
            let end = grammar::scan_num_const(b, p).pos;
            &&& head.out is Ok
            &&& b[p] < 0x80 ==> head.out->Ok_0.0 == b[p] / 2 && head.pos == p + 1
            &&& b[p] % 2 == 0 ==> (c matches NumConst::Int(i) && (i - head.out->Ok_0.0)
                % 0x1_0000_0000 == 0) && end == head.pos
            &&& b[p] % 2 == 1 ==> (c matches NumConst::Num(bits) && bits % 0x1_0000_0000
                == head.out->Ok_0.0 && reader::scan_uleb(b, head.pos) == grammar::done(
                (bits / 0x1_0000_0000) as u32,
                end,
            ))
        },
{
}

// ---- Debug sections ----------------------------------------------------------------

/// How many bytes a line takes.
pub open spec fn line_width(numline: u32) -> int {
    if numline <= 0xff {
        1
    } else if numline <= 0xffff {
        2
    } else {
        4
    }
}

/// A line is its distance from the first line, in as few bytes as the
/// number of lines needs, the lowest first.
pub proof fn law_lines_count_from_the_first(b: Seq<u8>, p: int, firstline: u32, numline: u32)
    requires
        0 <= p,
    ensures
        grammar::scan_line(b, p, firstline, numline).out is Ok <==> p + line_width(numline)
            <= b.len(),
        grammar::scan_line(b, p, firstline, numline).out matches Ok(line) ==> {
            let distance = line - firstline;
            &&& grammar::scan_line(b, p, firstline, numline).pos == p + line_width(numline)
            &&& numline <= 0xff ==> (distance - b[p]) % 0x1_0000_0000 == 0
            &&& 0xff < numline <= 0xffff ==> (distance - b[p] - 0x100 * b[p + 1]) % 0x1_0000_0000
                == 0
            &&& numline > 0xffff ==> (distance - b[p] - 0x100 * b[p + 1] - 0x1_0000 * b[p + 2]
                - 0x100_0000 * b[p + 3]) % 0x1_0000_0000 == 0
        },
{
}

/// A scope that starts at 0 is that of a parameter. Any other starts two
/// instructions before its number, which is never 1. What follows says how
/// long it is, for a parameter with the two instructions counted in.
pub proof fn law_scopes(b: Seq<u8>, p: int, scope: u32)
    ensures
        scope == 1 ==> grammar::scan_scope(b, p, scope).out is Err,
        scope != 1 ==> (grammar::scan_scope(b, p, scope).out is Ok <==> reader::scan_uleb(
            b,
            p,
        ).out is Ok),
        grammar::scan_scope(b, p, scope).out matches Ok((is_parameter, begin, end)) ==> {
            let n = reader::scan_uleb(b, p).out->Ok_0;
            &&& is_parameter <==> scope == 0
            &&& scope == 0 ==> begin == 0 && (end + 2 - n) % 0x1_0000_0000 == 0
            &&& scope > 0 ==> begin + 2 == scope && (end - begin - n) % 0x1_0000_0000 == 0
        },
{
}

// ---- Prototypes --------------------------------------------------------------------

/// A prototype starts with its flags, the number of its parameters, its
/// frame size and the number of its upvalues, one byte each, of which only
/// the flags can be refused.
pub proof fn law_head_bytes(b: Seq<u8>, p: int)
    requires
        0 <= p,
    ensures
        grammar::scan_head_bytes(b, p).out is Ok <==> p + 4 <= b.len() && b[p] & 0xf8 == 0,
        grammar::scan_head_bytes(b, p).out matches Ok((flags, numparams, framesize, numuv)) ==> {
            &&& flags == b[p]
            &&& numparams == b[p + 1]
            &&& framesize == b[p + 2]
            &&& numuv == b[p + 3]
            &&& grammar::scan_head_bytes(b, p).pos == p + 4
        },
{
    if p < b.len() {
        let flags = b[p];
        assert(flags & !(0x01u8 | 0x02u8 | 0x04u8) == flags & 0xf8) by (bit_vector);
    }
}

/// Then it counts its constants, its numbers and its instructions, and,
/// unless the dump is stripped, gives the size of its debug section and
/// with one that has any its first line and the number of lines.
pub proof fn law_head_counts(b: Seq<u8>, p: int, stripped: bool)
    ensures
        grammar::scan_head(b, p, stripped).out matches Ok(h) ==> {
            let kgc = reader::scan_uleb(b, grammar::scan_head_bytes(b, p).pos);
            let kn = reader::scan_uleb(b, kgc.pos);
            let bc = reader::scan_uleb(b, kn.pos);
            let size = reader::scan_uleb(b, bc.pos);
            let first = reader::scan_uleb(b, size.pos);
            let lines = reader::scan_uleb(b, first.pos);
            let end = grammar::scan_head(b, p, stripped).pos;
            &&& grammar::scan_head_bytes(b, p).out == Ok::<(u8, u8, u8, u8), crate::Fault>(
                (h.flags, h.numparams, h.framesize, h.numuv),
            )
            &&& kgc == grammar::done(h.numkgc, kgc.pos)
            &&& kn == grammar::done(h.numkn, kn.pos)
            &&& bc == grammar::done(h.numbc, bc.pos)
            &&& stripped ==> h.sizedbg == 0 && end == bc.pos
            &&& !stripped ==> size == grammar::done(h.sizedbg, size.pos)
            &&& !stripped && h.sizedbg == 0 ==> end == size.pos
            &&& !stripped && h.sizedbg > 0 ==> {
                &&& first == grammar::done(h.firstline, first.pos)
                &&& lines == grammar::done(h.numline, end)
            }
        },
{
}

/// Instructions in a row, four bytes each.
proof fn lemma_code(b: Seq<u8>, p: int, n: nat, so_far: Seq<Instruction>)
    requires
        0 <= p,
    ensures
        grammar::scan_many(grammar::insts(b), p, n, so_far).out matches Ok(code) ==> {
            &&& grammar::scan_many(grammar::insts(b), p, n, so_far).pos == p + 4 * n
            &&& n > 0 ==> p + 4 * n <= b.len()
            &&& code.len() == so_far.len() + n
            &&& code.take(so_far.len() as int) == so_far
            &&& forall|i: int|
                0 <= i < n ==> code[so_far.len() + i] == #[trigger] grammar::decoded(
                    b.subrange(p + 4 * i, p + 4 * i + 4),
                )
        },
    decreases n,
{
    let one = grammar::insts(b);
    if n == 0 {
        assert(so_far.take(so_far.len() as int) =~= so_far);
    } else if let Ok(inst) = one(p).out {
        let more = so_far.push(inst);
        lemma_code(b, p + 4, (n - 1) as nat, more);
        if let Ok(code) = grammar::scan_many(one, p, n, so_far).out {
            let k = so_far.len() as int;
            assert(more.take(k) =~= so_far);
            assert(code.take(k) =~= code.take(k + 1).take(k));
            assert(code[k] == code.take(k + 1)[k]);
            assert forall|i: int| 0 <= i < n implies code[k + i] == #[trigger] grammar::decoded(
                b.subrange(p + 4 * i, p + 4 * i + 4),
            ) by {
                if i > 0 {
                    let raw = b.subrange(p + 4 + 4 * (i - 1), p + 4 + 4 * (i - 1) + 4);
                    assert(raw == b.subrange(p + 4 * i, p + 4 * i + 4));
                    assert(code[more.len() + (i - 1)] == grammar::decoded(raw));
                }
            }
        }
    }
}

/// Upvalues in a row, two bytes each.
proof fn lemma_upvalues(b: Seq<u8>, p: int, n: nat, so_far: Seq<UpvalDesc>)
    requires
        0 <= p,
    ensures
        grammar::scan_many(grammar::upvalues(b), p, n, so_far).out matches Ok(uvs) ==> {
            &&& grammar::scan_many(grammar::upvalues(b), p, n, so_far).pos == p + 2 * n
            &&& n > 0 ==> p + 2 * n <= b.len()
            &&& uvs.len() == so_far.len() + n
            &&& uvs.take(so_far.len() as int) == so_far
            &&& forall|i: int|
                so_far.len() <= i < uvs.len() ==> (#[trigger] uvs[i]).raw == b[p + 2 * (i
                    - so_far.len())] + 0x100 * b[p + 2 * (i - so_far.len()) + 1]
        },
    decreases n,
{
    let one = grammar::upvalues(b);
    if n == 0 {
        assert(so_far.take(so_far.len() as int) =~= so_far);
    } else if let Ok(uv) = one(p).out {
        let more = so_far.push(uv);
        lemma_upvalues(b, p + 2, (n - 1) as nat, more);
        if let Ok(uvs) = grammar::scan_many(one, p, n, so_far).out {
            let k = so_far.len() as int;
            assert(more.take(k) =~= so_far);
            assert(uvs.take(k) =~= uvs.take(k + 1).take(k));
            assert(uvs[k] == uvs.take(k + 1)[k]);
        }
    }
}

/// Behind its head a prototype has its instructions, four bytes each: the
/// opcode, then A, then C and B or the two bytes of D.
pub proof fn law_instruction_bytes(b: Seq<u8>, p: int, h: ProtoHead, i: int, op: Opcode)
    requires
        0 <= p,
        0 <= i < h.numbc,
    ensures
        grammar::scan_body(b, p, h).out matches Ok(v) ==> {
            let at = p + 4 * i;
            &&& at + 4 <= b.len()
            &&& v.insts.len() == h.numbc + 1
            &&& v.insts[i + 1].a == b[at + 1]
            &&& b[at] == ir::opcode_byte(op) ==> v.insts[i + 1].op == op
            &&& ir::op_is_abc(v.insts[i + 1].op) ==> v.insts[i + 1].c == b[at + 2]
                && v.insts[i + 1].b_or_d == b[at + 3]
            &&& !ir::op_is_abc(v.insts[i + 1].op) ==> v.insts[i + 1].b_or_d == b[at + 2] + 0x100
                * b[at + 3]
        },
{
    lemma_code(b, p, h.numbc as nat, seq![grammar::header_inst(h)]);
    frontend::law_opcode_round_trip(op);
    let raw = b.subrange(p + 4 * i, p + 4 * i + 4);
    if let Ok(code) = grammar::scan_many(
        grammar::insts(b),
        p,
        h.numbc as nat,
        seq![grammar::header_inst(h)],
    ).out {
        assert(code[1 + i] == grammar::decoded(raw));
    }
}

/// Then come its upvalues, two bytes each, the lower first; then as many
/// constants and numbers as its head counts.
pub proof fn law_parts_behind_the_code(b: Seq<u8>, p: int, h: ProtoHead)
    requires
        0 <= p,
    ensures
        grammar::scan_body(b, p, h).out matches Ok(v) ==> {
            let at = p + 4 * h.numbc;
            let consts = at + 2 * h.numuv;
            &&& v.insts[0] == grammar::header_inst(h)
            &&& v.flags == h.flags
            &&& v.numparams == h.numparams
            &&& v.framesize == h.framesize
            &&& v.upvalues.len() == h.numuv
            &&& forall|i: int|
                0 <= i < h.numuv ==> (#[trigger] v.upvalues[i]).raw == b[at + 2 * i] + 0x100 * b[at
                    + 2 * i + 1]
            &&& v.gc_consts.len() == h.numkgc
            &&& v.num_consts.len() == h.numkn
            &&& h.numkgc > 0 ==> grammar::scan_gc_const(b, consts).out == Ok::<
                GcConstV,
                crate::Fault,
            >(v.gc_consts[0])
            &&& h.numkgc == 0 && h.numkn > 0 ==> grammar::scan_num_const(b, consts).out == Ok::<
                NumConst,
                crate::Fault,
            >(v.num_consts[0])
            &&& v.debug is Some <==> h.sizedbg > 0
        },
{
    let first = seq![grammar::header_inst(h)];
    let code = grammar::scan_many(grammar::insts(b), p, h.numbc as nat, first);
    lemma_code(b, p, h.numbc as nat, first);
    if let Ok(insts) = code.out {
        assert(insts[0] == insts.take(1)[0]);
        lemma_upvalues(b, code.pos, h.numuv as nat, seq![]);
        let uvs = grammar::scan_many(grammar::upvalues(b), code.pos, h.numuv as nat, seq![]);
        lemma_many(grammar::gc_consts(b), uvs.pos, h.numkgc as nat, seq![]);
        let gcs = grammar::scan_many(grammar::gc_consts(b), uvs.pos, h.numkgc as nat, seq![]);
        lemma_many(grammar::num_consts(b), gcs.pos, h.numkn as nat, seq![]);
    }
}

} // verus!
