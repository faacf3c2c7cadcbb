//! How a module is written as a dump, and that reading the dump gives
//! the module back: the parser decodes every well-formed dump.
//!
//! Names in the debug section are given as bytes here; a parsed module
//! holds them as text.

use vstd::prelude::*;

use crate::frontend;
use crate::frontend::grammar;
use crate::frontend::grammar::ProtoHead;
use crate::frontend::reader;
use crate::frontend::reader::Scan;
use crate::ir;
use crate::ir::{
    DebugInfoV, GcConstV, Instruction, KtabKV, ModuleHeaderV, ModuleV, NumConst, ProtoV,
    TableConstV, UpvalDesc, VarInfoV, VarKind,
};
use crate::text;
use crate::Fault;

verus! {

// ---- Codes in a row ------------------------------------------------------------

/// The codes of some items, one behind the other.
pub open spec fn codes<T>(items: Seq<T>, code: spec_fn(T) -> Seq<u8>) -> Seq<u8>
    decreases items.len(),
{
    if items.len() == 0 {
        seq![]
    } else {
        code(items[0]) + codes(items.drop_first(), code)
    }
}

/// Two codes in a row stand at their places.
proof fn lemma_split(b: Seq<u8>, p: int, c1: Seq<u8>, c2: Seq<u8>)
    requires
        reader::stands_at(b, p, c1 + c2),
    ensures
        reader::stands_at(b, p, c1),
        reader::stands_at(b, p + c1.len(), c2),
{
    let whole = b.subrange(p, p + (c1 + c2).len());
    assert(b.subrange(p, p + c1.len()) =~= c1) by {
        assert forall|i: int| 0 <= i < c1.len() implies b.subrange(p, p + c1.len())[i] == c1[i] by {
            assert(whole[i] == (c1 + c2)[i]);
        }
    }
    assert(b.subrange(p + c1.len(), p + c1.len() + c2.len()) =~= c2) by {
        assert forall|i: int| 0 <= i < c2.len() implies b.subrange(
            p + c1.len(),
            p + c1.len() + c2.len(),
        )[i] == c2[i] by {
            assert(whole[c1.len() + i] == (c1 + c2)[c1.len() + i]);
        }
    }
}

/// Reading items in a row gives them back, if reading each does.
proof fn lemma_many<T>(
    one: spec_fn(int) -> Scan<T>,
    code: spec_fn(T) -> Seq<u8>,
    b: Seq<u8>,
    p: int,
    items: Seq<T>,
    so_far: Seq<T>,
)
    requires
        reader::stands_at(b, p, codes(items, code)),
        forall|i: int, q: int|
            0 <= i < items.len() && reader::stands_at(b, q, code(#[trigger] items[i]))
                ==> #[trigger] one(q) == grammar::done(items[i], q + code(items[i]).len()),
    ensures
        grammar::scan_many(one, p, items.len(), so_far) == grammar::done(
            so_far + items,
            p + codes(items, code).len(),
        ),
    decreases items.len(),
{
    if items.len() == 0 {
        assert(so_far + items =~= so_far);
    } else {
        let rest = items.drop_first();
        lemma_split(b, p, code(items[0]), codes(rest, code));
        assert(one(p) == grammar::done(items[0], p + code(items[0]).len()));
        assert forall|i: int, q: int|
            0 <= i < rest.len() && reader::stands_at(b, q, code(#[trigger] rest[i])) implies (
        #[trigger] one(q)) == grammar::done(rest[i], q + code(rest[i]).len()) by {
            assert(rest[i] == items[i + 1]);
        }
        lemma_many(one, code, b, p + code(items[0]).len(), rest, so_far.push(items[0]));
        assert(so_far.push(items[0]) + rest =~= so_far + items);
    }
}

// ---- Constants -----------------------------------------------------------------

/// A 64-bit value, low half first.
pub open spec fn halves_code(v: u64) -> Seq<u8> {
    reader::uleb_code((v % 0x1_0000_0000) as nat) + reader::uleb_code((v / 0x1_0000_0000) as nat)
}

/// A string with its length in the tag.
pub open spec fn string_code(bytes: Seq<u8>) -> Seq<u8> {
    reader::uleb_code(bytes.len() + 5) + bytes
}

/// A table key or value.
pub open spec fn ktabk_code(k: KtabKV) -> Seq<u8> {
    match k {
        KtabKV::Nil => reader::uleb_code(0),
        KtabKV::False => reader::uleb_code(1),
        KtabKV::True => reader::uleb_code(2),
        KtabKV::Int(n) => reader::uleb_code(3) + reader::uleb_code(n as nat),
        KtabKV::Num(bits) => reader::uleb_code(4) + halves_code(bits),
        KtabKV::Str(bytes) => string_code(bytes),
    }
}

/// A hash entry.
pub open spec fn pair_code(pair: (KtabKV, KtabKV)) -> Seq<u8> {
    ktabk_code(pair.0) + ktabk_code(pair.1)
}

/// A template table.
pub open spec fn table_code(t: TableConstV) -> Seq<u8> {
    reader::uleb_code(t.array.len()) + (reader::uleb_code(t.hash.len()) + (codes(
        t.array,
        |k: KtabKV| ktabk_code(k),
    ) + codes(t.hash, |pair: (KtabKV, KtabKV)| pair_code(pair))))
}

/// A GC constant.
pub open spec fn gc_code(k: GcConstV) -> Seq<u8> {
    match k {
        GcConstV::Child => reader::uleb_code(0),
        GcConstV::Tab(t) => reader::uleb_code(1) + table_code(t),
        GcConstV::I64(v) => reader::uleb_code(2) + halves_code(v),
        GcConstV::U64(v) => reader::uleb_code(3) + halves_code(v),
        GcConstV::Complex { real: re, imag: im } => reader::uleb_code(4) + (halves_code(re)
            + halves_code(im)),
        GcConstV::Str(bytes) => string_code(bytes),
    }
}

/// A number constant.
pub open spec fn num_code(n: NumConst) -> Seq<u8> {
    match n {
        NumConst::Int(i) => reader::uleb33_code(
            (if i >= 0 {
                i as int
            } else {
                i + 0x1_0000_0000
            }) as nat,
            0,
        ),
        NumConst::Num(bits) => reader::uleb33_code((bits % 0x1_0000_0000) as nat, 1)
            + reader::uleb_code((bits / 0x1_0000_0000) as nat),
    }
}

/// Whether a string's tag fits.
pub open spec fn string_fits(bytes: Seq<u8>) -> bool {
    bytes.len() + 5 <= u32::MAX
}

/// Whether a table key or value fits its encoding.
pub open spec fn ktabk_fits(k: KtabKV) -> bool {
    match k {
        KtabKV::Int(n) => n <= u32::MAX,
        KtabKV::Str(bytes) => string_fits(bytes),
        _ => true,
    }
}

/// Whether a template table fits its encoding.
pub open spec fn table_fits(t: TableConstV) -> bool {
    &&& t.array.len() <= u32::MAX
    &&& t.hash.len() <= u32::MAX
    &&& forall|i: int| 0 <= i < t.array.len() ==> ktabk_fits(#[trigger] t.array[i])
    &&& forall|i: int|
        0 <= i < t.hash.len() ==> ktabk_fits((#[trigger] t.hash[i]).0) && ktabk_fits(t.hash[i].1)
}

/// Whether a GC constant fits its encoding.
pub open spec fn gc_fits(k: GcConstV) -> bool {
    match k {
        GcConstV::Tab(t) => table_fits(t),
        GcConstV::Str(bytes) => string_fits(bytes),
        _ => true,
    }
}

proof fn lemma_halves(b: Seq<u8>, p: int, v: u64)
    requires
        reader::stands_at(b, p, halves_code(v)),
    ensures
        grammar::scan_halves(b, p) == grammar::done(v, p + halves_code(v).len()),
{
    let lo = (v % 0x1_0000_0000) as u32;
    let hi = (v / 0x1_0000_0000) as u32;
    lemma_split(b, p, reader::uleb_code(lo as nat), reader::uleb_code(hi as nat));
    reader::law_uleb_round_trip(b, p, lo);
    reader::law_uleb_round_trip(b, p + reader::uleb_code(lo as nat).len(), hi);
}

/// A string behind its tag.
proof fn lemma_string(b: Seq<u8>, p: int, bytes: Seq<u8>)
    requires
        string_fits(bytes),
        reader::stands_at(b, p, string_code(bytes)),
    ensures
        ({
            let tag = reader::scan_uleb(b, p);
            &&& tag.out == Ok::<u32, Fault>((bytes.len() + 5) as u32)
            &&& reader::scan_bytes(b, tag.pos, bytes.len()) == grammar::done(
                bytes,
                p + string_code(bytes).len(),
            )
        }),
{
    let tag = reader::uleb_code(bytes.len() + 5);
    lemma_split(b, p, tag, bytes);
    reader::law_uleb_round_trip(b, p, (bytes.len() + 5) as u32);
}

proof fn lemma_ktabk(b: Seq<u8>, p: int, k: KtabKV)
    requires
        ktabk_fits(k),
        reader::stands_at(b, p, ktabk_code(k)),
    ensures
        grammar::scan_ktabk(b, p) == grammar::done(k, p + ktabk_code(k).len()),
{
    match k {
        KtabKV::Nil => reader::law_uleb_round_trip(b, p, 0),
        KtabKV::False => reader::law_uleb_round_trip(b, p, 1),
        KtabKV::True => reader::law_uleb_round_trip(b, p, 2),
        KtabKV::Int(n) => {
            lemma_split(b, p, reader::uleb_code(3), reader::uleb_code(n as nat));
            reader::law_uleb_round_trip(b, p, 3);
            reader::law_uleb_round_trip(b, p + reader::uleb_code(3).len(), n as u32);
        },
        KtabKV::Num(bits) => {
            lemma_split(b, p, reader::uleb_code(4), halves_code(bits));
            reader::law_uleb_round_trip(b, p, 4);
            lemma_halves(b, p + reader::uleb_code(4).len(), bits);
        },
        KtabKV::Str(bytes) => {
            lemma_string(b, p, bytes);
        },
    }
}

proof fn lemma_pair(b: Seq<u8>, p: int, pair: (KtabKV, KtabKV))
    requires
        ktabk_fits(pair.0),
        ktabk_fits(pair.1),
        reader::stands_at(b, p, pair_code(pair)),
    ensures
        grammar::scan_ktab_pair(b, p) == grammar::done(pair, p + pair_code(pair).len()),
{
    lemma_split(b, p, ktabk_code(pair.0), ktabk_code(pair.1));
    lemma_ktabk(b, p, pair.0);
    lemma_ktabk(b, p + ktabk_code(pair.0).len(), pair.1);
}

proof fn lemma_ktabks(b: Seq<u8>, p: int, array: Seq<KtabKV>)
    requires
        forall|i: int| 0 <= i < array.len() ==> ktabk_fits(#[trigger] array[i]),
        reader::stands_at(b, p, codes(array, |k: KtabKV| ktabk_code(k))),
    ensures
        grammar::scan_many(grammar::ktabks(b), p, array.len(), seq![]) == grammar::done(
            array,
            p + codes(array, |k: KtabKV| ktabk_code(k)).len(),
        ),
{
    let code = |k: KtabKV| ktabk_code(k);
    let one = grammar::ktabks(b);
    assert forall|i: int, q: int|
        0 <= i < array.len() && reader::stands_at(b, q, code(#[trigger] array[i])) implies (
    #[trigger] one(q)) == grammar::done(array[i], q + code(array[i]).len()) by {
        lemma_ktabk(b, q, array[i]);
    }
    lemma_many(one, code, b, p, array, seq![]);
    assert(Seq::<KtabKV>::empty() + array =~= array);
}

proof fn lemma_pairs(b: Seq<u8>, p: int, hash: Seq<(KtabKV, KtabKV)>)
    requires
        forall|i: int|
            0 <= i < hash.len() ==> ktabk_fits((#[trigger] hash[i]).0) && ktabk_fits(hash[i].1),
        reader::stands_at(b, p, codes(hash, |pair: (KtabKV, KtabKV)| pair_code(pair))),
    ensures
        grammar::scan_many(grammar::ktab_pairs(b), p, hash.len(), seq![]) == grammar::done(
            hash,
            p + codes(hash, |pair: (KtabKV, KtabKV)| pair_code(pair)).len(),
        ),
{
    let code = |pair: (KtabKV, KtabKV)| pair_code(pair);
    let one = grammar::ktab_pairs(b);
    assert forall|i: int, q: int|
        0 <= i < hash.len() && reader::stands_at(b, q, code(#[trigger] hash[i])) implies (
    #[trigger] one(q)) == grammar::done(hash[i], q + code(hash[i]).len()) by {
        lemma_pair(b, q, hash[i]);
    }
    lemma_many(one, code, b, p, hash, seq![]);
    assert(Seq::<(KtabKV, KtabKV)>::empty() + hash =~= hash);
}

/// An encoded number that comes first among others.
proof fn lemma_uleb(b: Seq<u8>, p: int, v: nat, rest: Seq<u8>) -> (next: int)
    requires
        v <= u32::MAX,
        reader::stands_at(b, p, reader::uleb_code(v) + rest),
    ensures
        next == p + reader::uleb_code(v).len(),
        reader::scan_uleb(b, p) == grammar::done(v as u32, next),
        reader::stands_at(b, next, rest),
{
    lemma_split(b, p, reader::uleb_code(v), rest);
    reader::law_uleb_round_trip(b, p, v as u32);
    p + reader::uleb_code(v).len()
}

proof fn lemma_table(b: Seq<u8>, p: int, t: TableConstV)
    requires
        table_fits(t),
        reader::stands_at(b, p, table_code(t)),
    ensures
        grammar::scan_table(b, p) == grammar::done(t, p + table_code(t).len()),
{
    let c3 = codes(t.array, |k: KtabKV| ktabk_code(k));
    let c4 = codes(t.hash, |pair: (KtabKV, KtabKV)| pair_code(pair));
    let c2 = reader::uleb_code(t.hash.len());
    let p1 = lemma_uleb(b, p, t.array.len(), c2 + (c3 + c4));
    let p2 = lemma_uleb(b, p1, t.hash.len(), c3 + c4);
    lemma_split(b, p2, c3, c4);
    lemma_ktabks(b, p2, t.array);
    lemma_pairs(b, p2 + c3.len(), t.hash);
}

proof fn lemma_complex(b: Seq<u8>, p: int, re: u64, im: u64)
    requires
        reader::stands_at(b, p, gc_code(GcConstV::Complex { real: re, imag: im })),
    ensures
        ({
            let tag = reader::scan_uleb(b, p);
            let first = grammar::scan_halves(b, tag.pos);
            &&& tag.out == Ok::<u32, Fault>(4)
            &&& first.out == Ok::<u64, Fault>(re)
            &&& grammar::scan_halves(b, first.pos) == grammar::done(
                im,
                p + gc_code(GcConstV::Complex { real: re, imag: im }).len(),
            )
        }),
{
    let c1 = halves_code(re);
    let c2 = halves_code(im);
    let p1 = lemma_uleb(b, p, 4, c1 + c2);
    lemma_split(b, p1, c1, c2);
    lemma_halves(b, p1, re);
    lemma_halves(b, p1 + c1.len(), im);
}

proof fn lemma_gc_table(b: Seq<u8>, p: int, t: TableConstV)
    requires
        table_fits(t),
        reader::stands_at(b, p, gc_code(GcConstV::Tab(t))),
    ensures
        ({
            let tag = reader::scan_uleb(b, p);
            &&& tag.out == Ok::<u32, Fault>(1)
            &&& grammar::scan_table(b, tag.pos) == grammar::done(
                t,
                p + gc_code(GcConstV::Tab(t)).len(),
            )
        }),
{
    let p1 = lemma_uleb(b, p, 1, table_code(t));
    lemma_table(b, p1, t);
}

/// A 64-bit constant behind its tag.
proof fn lemma_gc_wide(b: Seq<u8>, p: int, tag: nat, v: u64)
    requires
        tag <= 4,
        reader::stands_at(b, p, reader::uleb_code(tag) + halves_code(v)),
    ensures
        ({
            let head = reader::scan_uleb(b, p);
            &&& head.out == Ok::<u32, Fault>(tag as u32)
            &&& grammar::scan_halves(b, head.pos) == grammar::done(
                v,
                p + (reader::uleb_code(tag) + halves_code(v)).len(),
            )
        }),
{
    let p1 = lemma_uleb(b, p, tag, halves_code(v));
    lemma_halves(b, p1, v);
}

proof fn lemma_gc(b: Seq<u8>, p: int, k: GcConstV)
    requires
        gc_fits(k),
        reader::stands_at(b, p, gc_code(k)),
    ensures
        grammar::scan_gc_const(b, p) == grammar::done(k, p + gc_code(k).len()),
{
    match k {
        GcConstV::Child => {
            assert(gc_code(k) == reader::uleb_code(0));
            reader::law_uleb_round_trip(b, p, 0);
        },
        GcConstV::Tab(t) => lemma_gc_table(b, p, t),
        GcConstV::I64(v) => lemma_gc_wide(b, p, 2, v),
        GcConstV::U64(v) => lemma_gc_wide(b, p, 3, v),
        GcConstV::Complex { real: re, imag: im } => lemma_complex(b, p, re, im),
        GcConstV::Str(bytes) => lemma_string(b, p, bytes),
    }
}

proof fn lemma_num(b: Seq<u8>, p: int, n: NumConst)
    requires
        reader::stands_at(b, p, num_code(n)),
    ensures
        grammar::scan_num_const(b, p) == grammar::done(n, p + num_code(n).len()),
{
    match n {
        NumConst::Int(i) => {
            let v = (if i >= 0 {
                i as int
            } else {
                i + 0x1_0000_0000
            }) as u32;
            reader::law_uleb33_round_trip(b, p, v, 0);
        },
        NumConst::Num(bits) => {
            let lo = (bits % 0x1_0000_0000) as u32;
            let hi = (bits / 0x1_0000_0000) as u32;
            let head = reader::uleb33_code(lo as nat, 1);
            lemma_split(b, p, head, reader::uleb_code(hi as nat));
            reader::law_uleb33_round_trip(b, p, lo, 1);
            reader::law_uleb_round_trip(b, p + head.len(), hi);
        },
    }
}

// ---- The debug section ------------------------------------------------------------

/// How far `b` is from `a`, modulo 2^32.
pub open spec fn distance(a: u32, b: u32) -> nat {
    if b >= a {
        (b - a) as nat
    } else {
        (b + 0x1_0000_0000 - a) as nat
    }
}

/// A variable as it is written, with its name as bytes.
pub struct VarSource {
    pub kind: VarKind,
    pub name: Seq<u8>,
    pub is_parameter: bool,
    pub scope_begin: u32,
    pub scope_end: u32,
}

/// A debug section as it is written, with its names as bytes.
pub struct DebugSource {
    pub firstline: u32,
    pub numline: u32,
    pub line_info: Seq<u32>,
    pub upvalue_names: Seq<Seq<u8>>,
    pub vars: Seq<VarSource>,
}

/// One line entry.
pub open spec fn line_code(firstline: u32, numline: u32, line: u32) -> Seq<u8> {
    let d = distance(firstline, line);
    if numline < 256 {
        seq![d as u8]
    } else if numline < 65536 {
        reader::code16(d as u16)
    } else {
        reader::code32(d as u32)
    }
}

/// Whether a line is near enough to the first to be written.
pub open spec fn line_fits(firstline: u32, numline: u32, line: u32) -> bool {
    if numline < 256 {
        distance(firstline, line) < 0x100
    } else if numline < 65536 {
        distance(firstline, line) < 0x1_0000
    } else {
        true
    }
}

/// Whether bytes can stand in front of a terminating zero.
pub open spec fn no_zero(bytes: Seq<u8>) -> bool {
    forall|i: int| 0 <= i < bytes.len() ==> #[trigger] bytes[i] != 0
}

/// A zero-terminated text.
pub open spec fn cstring_code(bytes: Seq<u8>) -> Seq<u8> {
    bytes.push(0)
}

/// The type byte of an internal loop variable.
pub open spec fn kind_byte(kind: VarKind) -> u8 {
    match kind {
        VarKind::Name => 0,
        VarKind::ForIdx => 1,
        VarKind::ForStop => 2,
        VarKind::ForStep => 3,
        VarKind::ForGen => 4,
        VarKind::ForState => 5,
        VarKind::ForCtl => 6,
    }
}

/// The scope offset of a variable.
pub open spec fn scope_of(v: VarSource) -> u32 {
    if v.is_parameter {
        0
    } else {
        (v.scope_begin + 2) as u32
    }
}

/// The number that fixes where a variable's scope ends.
pub open spec fn scope_length(v: VarSource) -> nat {
    if v.is_parameter {
        distance(0xffff_fffe, v.scope_end)
    } else {
        distance(v.scope_begin, v.scope_end)
    }
}

/// The type byte and name of a variable.
pub open spec fn var_head(v: VarSource) -> Seq<u8> {
    if v.kind == VarKind::Name {
        cstring_code(v.name)
    } else {
        seq![kind_byte(v.kind)]
    }
}

/// The variables behind one with the scope offset `scope`, and the zero
/// byte that ends them.
pub open spec fn vars_code(vars: Seq<VarSource>, scope: u32) -> Seq<u8>
    decreases vars.len(),
{
    if vars.len() == 0 {
        seq![0u8]
    } else {
        let v = vars[0];
        var_head(v) + (reader::uleb_code(distance(scope, scope_of(v))) + (reader::uleb_code(
            scope_length(v),
        ) + vars_code(vars.drop_first(), scope_of(v))))
    }
}

/// Whether a variable can be written.
pub open spec fn var_fits(v: VarSource) -> bool {
    &&& v.kind == VarKind::Name ==> v.name.len() > 0 && v.name[0] >= ir::VAR_STR && no_zero(v.name)
    &&& if v.is_parameter {
        v.scope_begin == 0
    } else {
        v.scope_begin <= u32::MAX - 2
    }
}

/// A variable as it is read, before it gets a slot.
pub open spec fn var_read(v: VarSource) -> VarInfoV {
    VarInfoV {
        kind: v.kind,
        name: if v.kind == VarKind::Name {
            Some(seq![v.name[0] as char] + text::utf8_lossy(v.name.skip(1)))
        } else {
            None
        },
        is_parameter: v.is_parameter,
        slot: 0,
        scope_begin: v.scope_begin,
        scope_end: v.scope_end,
    }
}

/// The variables as they are read, before they get slots.
pub open spec fn vars_read(vars: Seq<VarSource>) -> Seq<VarInfoV> {
    Seq::new(vars.len(), |i: int| var_read(vars[i]))
}

/// A debug section.
pub open spec fn debug_code(d: DebugSource) -> Seq<u8> {
    codes(d.line_info, |line: u32| line_code(d.firstline, d.numline, line)) + (codes(
        d.upvalue_names,
        |name: Seq<u8>| cstring_code(name),
    ) + vars_code(d.vars, 0))
}

/// Whether a debug section can be written, and its variables have slots.
pub open spec fn debug_fits(d: DebugSource, numparams: u8) -> bool {
    &&& debug_code(d).len() <= u32::MAX
    &&& forall|i: int|
        0 <= i < d.line_info.len() ==> line_fits(
            d.firstline,
            d.numline,
            #[trigger] d.line_info[i],
        )
    &&& forall|i: int| 0 <= i < d.upvalue_names.len() ==> no_zero(#[trigger] d.upvalue_names[i])
    &&& forall|i: int| 0 <= i < d.vars.len() ==> var_fits(#[trigger] d.vars[i])
    &&& grammar::slotted(vars_read(d.vars), numparams, d.vars.len()) is Some
}

/// A debug section as it is read.
pub open spec fn debug_read(d: DebugSource, numparams: u8) -> DebugInfoV {
    DebugInfoV {
        firstline: d.firstline,
        numline: d.numline,
        line_info: d.line_info,
        upvalue_names: Seq::new(
            d.upvalue_names.len(),
            |i: int| text::utf8_lossy(d.upvalue_names[i]),
        ),
        var_info: grammar::slotted(vars_read(d.vars), numparams, d.vars.len())->Some_0,
    }
}

proof fn lemma_distance(a: u32, b: u32)
    ensures
        distance(a, b) <= u32::MAX,
        grammar::wrapped_sum(a, distance(a, b) as u32) == b,
        grammar::wrapped_sum(distance(a, b) as u32, a) == b,
{
}

proof fn lemma_line(b: Seq<u8>, p: int, firstline: u32, numline: u32, line: u32)
    requires
        line_fits(firstline, numline, line),
        reader::stands_at(b, p, line_code(firstline, numline, line)),
    ensures
        grammar::scan_line(b, p, firstline, numline) == grammar::done(
            line,
            p + line_code(firstline, numline, line).len(),
        ),
{
    let d = distance(firstline, line);
    lemma_distance(firstline, line);
    if numline < 256 {
        assert(b.subrange(p, p + 1)[0] == b[p]);
    } else if numline < 65536 {
        reader::law_u16_round_trip(b, p, d as u16);
    } else {
        reader::law_u32_round_trip(b, p, d as u32);
    }
}

proof fn lemma_lines(b: Seq<u8>, p: int, firstline: u32, numline: u32, lines: Seq<u32>)
    requires
        forall|i: int|
            0 <= i < lines.len() ==> line_fits(firstline, numline, #[trigger] lines[i]),
        reader::stands_at(b, p, codes(lines, |line: u32| line_code(firstline, numline, line))),
    ensures
        grammar::scan_many(grammar::lines(b, firstline, numline), p, lines.len(), seq![])
            == grammar::done(
            lines,
            p + codes(lines, |line: u32| line_code(firstline, numline, line)).len(),
        ),
{
    let code = |line: u32| line_code(firstline, numline, line);
    let one = grammar::lines(b, firstline, numline);
    assert forall|i: int, q: int|
        0 <= i < lines.len() && reader::stands_at(b, q, code(#[trigger] lines[i])) implies (
    #[trigger] one(q)) == grammar::done(lines[i], q + code(lines[i]).len()) by {
        lemma_line(b, q, firstline, numline, lines[i]);
    }
    lemma_many(one, code, b, p, lines, seq![]);
    assert(Seq::<u32>::empty() + lines =~= lines);
}

/// The run of a zero-terminated text is the text.
proof fn lemma_text_run(b: Seq<u8>, p: int, bytes: Seq<u8>)
    requires
        no_zero(bytes),
        reader::stands_at(b, p, cstring_code(bytes)),
    ensures
        grammar::text_run(b, p) == bytes.len(),
        b.subrange(p, p + bytes.len()) == bytes,
    decreases bytes.len(),
{
    let code = cstring_code(bytes);
    let whole = b.subrange(p, p + code.len());
    assert(whole[0] == b[p]);
    assert(code == whole);
    if bytes.len() > 0 {
        let rest = bytes.drop_first();
        assert(cstring_code(rest) =~= code.drop_first());
        assert(b.subrange(p + 1, p + 1 + cstring_code(rest).len()) =~= cstring_code(rest)) by {
            assert forall|i: int| 0 <= i < cstring_code(rest).len() implies b.subrange(
                p + 1,
                p + 1 + cstring_code(rest).len(),
            )[i] == cstring_code(rest)[i] by {
                assert(whole[i + 1] == code[i + 1]);
            }
        }
        assert forall|i: int| 0 <= i < rest.len() implies #[trigger] rest[i] != 0 by {
            assert(rest[i] == bytes[i + 1]);
        }
        lemma_text_run(b, p + 1, rest);
    }
    assert(b.subrange(p, p + bytes.len()) =~= bytes) by {
        assert forall|i: int| 0 <= i < bytes.len() implies b.subrange(p, p + bytes.len())[i]
            == bytes[i] by {
            assert(whole[i] == code[i]);
        }
    }
}

proof fn lemma_cstring(b: Seq<u8>, p: int, bytes: Seq<u8>)
    requires
        no_zero(bytes),
        reader::stands_at(b, p, cstring_code(bytes)),
    ensures
        grammar::scan_cstring(b, p) == grammar::done(
            text::utf8_lossy(bytes),
            p + cstring_code(bytes).len(),
        ),
{
    lemma_text_run(b, p, bytes);
}

/// Reading names in a row gives their texts.
proof fn lemma_names(b: Seq<u8>, p: int, names: Seq<Seq<u8>>, so_far: Seq<Seq<char>>)
    requires
        forall|i: int| 0 <= i < names.len() ==> no_zero(#[trigger] names[i]),
        reader::stands_at(b, p, codes(names, |name: Seq<u8>| cstring_code(name))),
    ensures
        grammar::scan_many(grammar::cstrings(b), p, names.len(), so_far) == grammar::done(
            so_far + Seq::new(names.len(), |i: int| text::utf8_lossy(names[i])),
            p + codes(names, |name: Seq<u8>| cstring_code(name)).len(),
        ),
    decreases names.len(),
{
    let code = |name: Seq<u8>| cstring_code(name);
    let shown = Seq::new(names.len(), |i: int| text::utf8_lossy(names[i]));
    if names.len() == 0 {
        assert(so_far + shown =~= so_far);
    } else {
        let rest = names.drop_first();
        lemma_split(b, p, code(names[0]), codes(rest, code));
        lemma_cstring(b, p, names[0]);
        assert forall|i: int| 0 <= i < rest.len() implies no_zero(#[trigger] rest[i]) by {
            assert(rest[i] == names[i + 1]);
        }
        let first = text::utf8_lossy(names[0]);
        lemma_names(b, p + code(names[0]).len(), rest, so_far.push(first));
        let shown_rest = Seq::new(rest.len(), |i: int| text::utf8_lossy(rest[i]));
        assert(so_far.push(first) + shown_rest =~= so_far + shown);
    }
}

/// The type byte and name of a variable are read back.
proof fn lemma_var_head(b: Seq<u8>, p: int, v: VarSource, rest: Seq<u8>) -> (next: int)
    requires
        var_fits(v),
        reader::stands_at(b, p, var_head(v) + rest),
    ensures
        next == p + var_head(v).len(),
        next > p,
        reader::stands_at(b, next, rest),
        ({
            let t = reader::scan_u8(b, p);
            &&& t.pos == p + 1
            &&& t.out matches Ok(byte) && byte != 0 && grammar::scan_var_name(b, p + 1, byte)
                == grammar::done((v.kind, var_read(v).name), next)
        }),
{
    let head = var_head(v);
    lemma_split(b, p, head, rest);
    assert(b.subrange(p, p + head.len())[0] == b[p]);
    assert(head[0] == b[p]);
    if v.kind == VarKind::Name {
        let tail = v.name.skip(1);
        assert(v.name =~= seq![v.name[0]] + tail);
        assert(head =~= seq![v.name[0]] + cstring_code(tail));
        lemma_split(b, p, seq![v.name[0]], cstring_code(tail));
        assert forall|i: int| 0 <= i < tail.len() implies #[trigger] tail[i] != 0 by {
            assert(tail[i] == v.name[i + 1]);
        }
        lemma_cstring(b, p + 1, tail);
    }
    p + head.len()
}

/// The scope of a variable is read back.
proof fn lemma_scope(b: Seq<u8>, p: int, v: VarSource, rest: Seq<u8>) -> (next: int)
    requires
        var_fits(v),
        reader::stands_at(b, p, reader::uleb_code(scope_length(v)) + rest),
    ensures
        next == p + reader::uleb_code(scope_length(v)).len(),
        reader::stands_at(b, next, rest),
        grammar::scan_scope(b, p, scope_of(v)) == grammar::done(
            (v.is_parameter, v.scope_begin, v.scope_end),
            next,
        ),
{
    if v.is_parameter {
        lemma_distance(0xffff_fffe, v.scope_end);
    } else {
        lemma_distance(v.scope_begin, v.scope_end);
    }
    lemma_uleb(b, p, scope_length(v), rest)
}

/// The variables are read back, without their slots.
proof fn lemma_vars(
    b: Seq<u8>,
    p: int,
    vars: Seq<VarSource>,
    scope: u32,
    so_far: Seq<VarInfoV>,
)
    requires
        forall|i: int| 0 <= i < vars.len() ==> var_fits(#[trigger] vars[i]),
        reader::stands_at(b, p, vars_code(vars, scope)),
    ensures
        grammar::scan_var_records(b, p, scope, so_far) == grammar::done(
            so_far + vars_read(vars),
            p + vars_code(vars, scope).len(),
        ),
    decreases vars.len(),
{
    if vars.len() == 0 {
        assert(b.subrange(p, p + 1)[0] == b[p]);
        assert(so_far + vars_read(vars) =~= so_far);
    } else {
        let v = vars[0];
        let rest = vars.drop_first();
        let c3 = vars_code(rest, scope_of(v));
        let c2 = reader::uleb_code(scope_length(v));
        let c1 = reader::uleb_code(distance(scope, scope_of(v)));
        assert(var_fits(vars[0]));
        let p1 = lemma_var_head(b, p, v, c1 + (c2 + c3));
        lemma_distance(scope, scope_of(v));
        let p2 = lemma_uleb(b, p1, distance(scope, scope_of(v)), c2 + c3);
        let p3 = lemma_scope(b, p2, v, c3);
        assert forall|i: int| 0 <= i < rest.len() implies var_fits(#[trigger] rest[i]) by {
            assert(rest[i] == vars[i + 1]);
        }
        let more = so_far.push(var_read(v));
        lemma_vars(b, p3, rest, scope_of(v), more);
        assert(more + vars_read(rest) =~= so_far + vars_read(vars));
        assert(grammar::scan_var_records(b, p, scope, so_far) == grammar::scan_var_records(
            b,
            p3,
            scope_of(v),
            more,
        ));
    }
}

proof fn lemma_debug(b: Seq<u8>, p: int, d: DebugSource, h: ProtoHead)
    requires
        debug_fits(d, h.numparams),
        h.firstline == d.firstline,
        h.numline == d.numline,
        h.numbc == d.line_info.len(),
        h.numuv == d.upvalue_names.len(),
        h.sizedbg == debug_code(d).len(),
        reader::stands_at(b, p, debug_code(d)),
    ensures
        grammar::scan_debug(b, p, h) == grammar::done(
            debug_read(d, h.numparams),
            p + debug_code(d).len(),
        ),
{
    let c1 = codes(d.line_info, |line: u32| line_code(d.firstline, d.numline, line));
    let c2 = codes(d.upvalue_names, |name: Seq<u8>| cstring_code(name));
    let c3 = vars_code(d.vars, 0);
    lemma_split(b, p, c1, c2 + c3);
    lemma_split(b, p + c1.len(), c2, c3);
    lemma_lines(b, p, d.firstline, d.numline, d.line_info);
    lemma_names(b, p + c1.len(), d.upvalue_names, seq![]);
    lemma_vars(b, p + c1.len() + c2.len(), d.vars, 0, seq![]);
    let shown = Seq::new(d.upvalue_names.len(), |i: int| text::utf8_lossy(d.upvalue_names[i]));
    assert(Seq::<Seq<char>>::empty() + shown =~= shown);
    assert(Seq::<VarInfoV>::empty() + vars_read(d.vars) =~= vars_read(d.vars));
}

// ---- Prototypes ----------------------------------------------------------------------

/// A prototype as it is written: its own instructions, without the
/// header in front of them.
pub struct ProtoSource {
    pub flags: u8,
    pub numparams: u8,
    pub framesize: u8,
    pub upvalues: Seq<UpvalDesc>,
    pub gc_consts: Seq<GcConstV>,
    pub num_consts: Seq<NumConst>,
    pub insts: Seq<Instruction>,
    pub debug: Option<DebugSource>,
}

/// The debug sizing of a prototype. A stripped dump has none.
pub open spec fn sizing_code(f: ProtoSource, stripped: bool) -> Seq<u8> {
    if stripped {
        seq![]
    } else {
        match f.debug {
            None => reader::uleb_code(0),
            Some(d) => reader::uleb_code(debug_code(d).len()) + (reader::uleb_code(
                d.firstline as nat,
            ) + reader::uleb_code(d.numline as nat)),
        }
    }
}

/// The head of a prototype.
#[verifier::opaque]
pub open spec fn head_code(f: ProtoSource, stripped: bool) -> Seq<u8> {
    seq![f.flags, f.numparams, f.framesize, f.upvalues.len() as u8] + (reader::uleb_code(
        f.gc_consts.len(),
    ) + (reader::uleb_code(f.num_consts.len()) + (reader::uleb_code(f.insts.len()) + sizing_code(
        f,
        stripped,
    ))))
}

/// The code of the debug section, if there is one.
pub open spec fn debug_opt_code(f: ProtoSource) -> Seq<u8> {
    match f.debug {
        Some(d) => debug_code(d),
        None => seq![],
    }
}

/// What follows the head of a prototype.
#[verifier::opaque]
pub open spec fn body_code(f: ProtoSource) -> Seq<u8> {
    codes(f.insts, |inst: Instruction| frontend::inst_code(inst)) + (codes(
        f.upvalues,
        |uv: UpvalDesc| reader::code16(uv.raw),
    ) + (codes(f.gc_consts, |k: GcConstV| gc_code(k)) + (codes(
        f.num_consts,
        |n: NumConst| num_code(n),
    ) + debug_opt_code(f))))
}

/// A prototype.
pub open spec fn proto_code(f: ProtoSource, stripped: bool) -> Seq<u8> {
    head_code(f, stripped) + body_code(f)
}

/// Whether a prototype can be written.
pub open spec fn proto_fits(f: ProtoSource, stripped: bool) -> bool {
    &&& grammar::proto_flags_known(f.flags)
    &&& f.upvalues.len() <= 255
    &&& f.gc_consts.len() <= u32::MAX
    &&& f.num_consts.len() <= u32::MAX
    &&& f.insts.len() <= u32::MAX
    &&& proto_code(f, stripped).len() <= u32::MAX
    &&& forall|i: int| 0 <= i < f.insts.len() ==> frontend::operands_fit(#[trigger] f.insts[i])
    &&& forall|i: int| 0 <= i < f.gc_consts.len() ==> gc_fits(#[trigger] f.gc_consts[i])
    &&& match f.debug {
        Some(d) => {
            &&& !stripped
            &&& debug_fits(d, f.numparams)
            &&& d.line_info.len() == f.insts.len()
            &&& d.upvalue_names.len() == f.upvalues.len()
        },
        None => true,
    }
}

/// The head of a prototype as it is read.
pub open spec fn head_read(f: ProtoSource) -> ProtoHead {
    ProtoHead {
        flags: f.flags,
        numparams: f.numparams,
        framesize: f.framesize,
        numuv: f.upvalues.len() as u8,
        numkgc: f.gc_consts.len() as u32,
        numkn: f.num_consts.len() as u32,
        numbc: f.insts.len() as u32,
        sizedbg: match f.debug {
            Some(d) => debug_code(d).len() as u32,
            None => 0,
        },
        firstline: match f.debug {
            Some(d) => d.firstline,
            None => 0,
        },
        numline: match f.debug {
            Some(d) => d.numline,
            None => 0,
        },
    }
}

/// A prototype as it is read.
pub open spec fn proto_read(f: ProtoSource) -> ProtoV {
    ProtoV {
        flags: f.flags,
        numparams: f.numparams,
        framesize: f.framesize,
        upvalues: f.upvalues,
        gc_consts: f.gc_consts,
        num_consts: f.num_consts,
        insts: seq![grammar::header_inst(head_read(f))] + f.insts,
        debug: match f.debug {
            Some(d) => Some(debug_read(d, f.numparams)),
            None => None,
        },
    }
}

proof fn lemma_sizing(b: Seq<u8>, p: int, f: ProtoSource, stripped: bool)
    requires
        proto_fits(f, stripped),
        reader::stands_at(b, p, sizing_code(f, stripped)),
    ensures
        grammar::scan_head_debug(b, p, stripped) == grammar::done(
            (head_read(f).sizedbg, head_read(f).firstline, head_read(f).numline),
            p + sizing_code(f, stripped).len(),
        ),
{
    if !stripped {
        match f.debug {
            None => {
                reader::law_uleb_round_trip(b, p, 0);
            },
            Some(d) => {
                let c2 = reader::uleb_code(d.firstline as nat);
                let c3 = reader::uleb_code(d.numline as nat);
                lemma_debug_not_empty(d);
                let p1 = lemma_uleb(b, p, debug_code(d).len(), c2 + c3);
                let p2 = lemma_uleb(b, p1, d.firstline as nat, c3);
                reader::law_uleb_round_trip(b, p2, d.numline);
            },
        }
    }
}

proof fn lemma_debug_not_empty(d: DebugSource)
    ensures
        debug_code(d).len() > 0,
{
    assert(vars_code(d.vars, 0).len() > 0) by {
        if d.vars.len() > 0 {
            lemma_vars_not_empty(d.vars, 0);
        }
    }
}

proof fn lemma_vars_not_empty(vars: Seq<VarSource>, scope: u32)
    ensures
        vars_code(vars, scope).len() > 0,
    decreases vars.len(),
{
    if vars.len() > 0 {
        lemma_vars_not_empty(vars.drop_first(), scope_of(vars[0]));
    }
}

proof fn lemma_head_bytes(b: Seq<u8>, p: int, f: ProtoSource, rest: Seq<u8>)
    requires
        grammar::proto_flags_known(f.flags),
        f.upvalues.len() <= 255,
        reader::stands_at(
            b,
            p,
            seq![f.flags, f.numparams, f.framesize, f.upvalues.len() as u8] + rest,
        ),
    ensures
        grammar::scan_head_bytes(b, p) == grammar::done(
            (f.flags, f.numparams, f.framesize, f.upvalues.len() as u8),
            p + 4,
        ),
        reader::stands_at(b, p + 4, rest),
{
    let head = seq![f.flags, f.numparams, f.framesize, f.upvalues.len() as u8];
    lemma_split(b, p, head, rest);
    let whole = b.subrange(p, p + 4);
    assert(whole == head);
    assert(whole[0] == b[p] && whole[1] == b[p + 1] && whole[2] == b[p + 2] && whole[3] == b[p
        + 3]);
}

proof fn lemma_head(b: Seq<u8>, p: int, f: ProtoSource, stripped: bool)
    requires
        proto_fits(f, stripped),
        reader::stands_at(b, p, head_code(f, stripped)),
    ensures
        grammar::scan_head(b, p, stripped) == grammar::done(
            head_read(f),
            p + head_code(f, stripped).len(),
        ),
{
    reveal(head_code);
    let c5 = sizing_code(f, stripped);
    let c4 = reader::uleb_code(f.insts.len());
    let c3 = reader::uleb_code(f.num_consts.len());
    let c2 = reader::uleb_code(f.gc_consts.len());
    lemma_head_bytes(b, p, f, c2 + (c3 + (c4 + c5)));
    let p2 = lemma_uleb(b, p + 4, f.gc_consts.len(), c3 + (c4 + c5));
    let p3 = lemma_uleb(b, p2, f.num_consts.len(), c4 + c5);
    let p4 = lemma_uleb(b, p3, f.insts.len(), c5);
    lemma_sizing(b, p4, f, stripped);
    assert(grammar::scan_head_counts(b, p + 4) == grammar::done(
        (f.gc_consts.len() as u32, f.num_consts.len() as u32, f.insts.len() as u32),
        p4,
    ));
}

proof fn lemma_insts(b: Seq<u8>, p: int, insts: Seq<Instruction>, so_far: Seq<Instruction>)
    requires
        forall|i: int| 0 <= i < insts.len() ==> frontend::operands_fit(#[trigger] insts[i]),
        reader::stands_at(b, p, codes(insts, |inst: Instruction| frontend::inst_code(inst))),
    ensures
        grammar::scan_many(grammar::insts(b), p, insts.len(), so_far) == grammar::done(
            so_far + insts,
            p + codes(insts, |inst: Instruction| frontend::inst_code(inst)).len(),
        ),
{
    let code = |inst: Instruction| frontend::inst_code(inst);
    let one = grammar::insts(b);
    assert forall|i: int, q: int|
        0 <= i < insts.len() && reader::stands_at(b, q, code(#[trigger] insts[i])) implies (
    #[trigger] one(q)) == grammar::done(insts[i], q + code(insts[i]).len()) by {
        frontend::law_instruction_round_trip(b, q, insts[i]);
    }
    lemma_many(one, code, b, p, insts, so_far);
}

proof fn lemma_upvalues(b: Seq<u8>, p: int, uvs: Seq<UpvalDesc>)
    requires
        reader::stands_at(b, p, codes(uvs, |uv: UpvalDesc| reader::code16(uv.raw))),
    ensures
        grammar::scan_many(grammar::upvalues(b), p, uvs.len(), seq![]) == grammar::done(
            uvs,
            p + codes(uvs, |uv: UpvalDesc| reader::code16(uv.raw)).len(),
        ),
{
    let code = |uv: UpvalDesc| reader::code16(uv.raw);
    let one = grammar::upvalues(b);
    assert forall|i: int, q: int|
        0 <= i < uvs.len() && reader::stands_at(b, q, code(#[trigger] uvs[i])) implies (
    #[trigger] one(q)) == grammar::done(uvs[i], q + code(uvs[i]).len()) by {
        reader::law_u16_round_trip(b, q, uvs[i].raw);
    }
    lemma_many(one, code, b, p, uvs, seq![]);
    assert(Seq::<UpvalDesc>::empty() + uvs =~= uvs);
}

proof fn lemma_gcs(b: Seq<u8>, p: int, gcs: Seq<GcConstV>)
    requires
        forall|i: int| 0 <= i < gcs.len() ==> gc_fits(#[trigger] gcs[i]),
        reader::stands_at(b, p, codes(gcs, |k: GcConstV| gc_code(k))),
    ensures
        grammar::scan_many(grammar::gc_consts(b), p, gcs.len(), seq![]) == grammar::done(
            gcs,
            p + codes(gcs, |k: GcConstV| gc_code(k)).len(),
        ),
{
    let code = |k: GcConstV| gc_code(k);
    let one = grammar::gc_consts(b);
    assert forall|i: int, q: int|
        0 <= i < gcs.len() && reader::stands_at(b, q, code(#[trigger] gcs[i])) implies (
    #[trigger] one(q)) == grammar::done(gcs[i], q + code(gcs[i]).len()) by {
        lemma_gc(b, q, gcs[i]);
    }
    lemma_many(one, code, b, p, gcs, seq![]);
    assert(Seq::<GcConstV>::empty() + gcs =~= gcs);
}

proof fn lemma_nums(b: Seq<u8>, p: int, nums: Seq<NumConst>)
    requires
        reader::stands_at(b, p, codes(nums, |n: NumConst| num_code(n))),
    ensures
        grammar::scan_many(grammar::num_consts(b), p, nums.len(), seq![]) == grammar::done(
            nums,
            p + codes(nums, |n: NumConst| num_code(n)).len(),
        ),
{
    let code = |n: NumConst| num_code(n);
    let one = grammar::num_consts(b);
    assert forall|i: int, q: int|
        0 <= i < nums.len() && reader::stands_at(b, q, code(#[trigger] nums[i])) implies (
    #[trigger] one(q)) == grammar::done(nums[i], q + code(nums[i]).len()) by {
        lemma_num(b, q, nums[i]);
    }
    lemma_many(one, code, b, p, nums, seq![]);
    assert(Seq::<NumConst>::empty() + nums =~= nums);
}

/// Five codes in a row stand at their places.
proof fn lemma_split_five(
    b: Seq<u8>,
    p: int,
    c1: Seq<u8>,
    c2: Seq<u8>,
    c3: Seq<u8>,
    c4: Seq<u8>,
    c5: Seq<u8>,
)
    requires
        reader::stands_at(b, p, c1 + (c2 + (c3 + (c4 + c5)))),
    ensures
        reader::stands_at(b, p, c1),
        reader::stands_at(b, p + c1.len(), c2),
        reader::stands_at(b, p + c1.len() + c2.len(), c3),
        reader::stands_at(b, p + c1.len() + c2.len() + c3.len(), c4),
        reader::stands_at(b, p + c1.len() + c2.len() + c3.len() + c4.len(), c5),
{
    lemma_split(b, p, c1, c2 + (c3 + (c4 + c5)));
    lemma_split(b, p + c1.len(), c2, c3 + (c4 + c5));
    lemma_split(b, p + c1.len() + c2.len(), c3, c4 + c5);
    lemma_split(b, p + c1.len() + c2.len() + c3.len(), c4, c5);
}

proof fn lemma_debug_opt(b: Seq<u8>, p: int, f: ProtoSource, stripped: bool)
    requires
        proto_fits(f, stripped),
        reader::stands_at(b, p, debug_opt_code(f)),
    ensures
        grammar::scan_debug_opt(b, p, head_read(f)) == grammar::done(
            proto_read(f).debug,
            p + debug_opt_code(f).len(),
        ),
{
    if let Some(d) = f.debug {
        lemma_debug_not_empty(d);
        lemma_debug(b, p, d, head_read(f));
    }
}

proof fn lemma_body(b: Seq<u8>, p: int, f: ProtoSource, stripped: bool)
    requires
        proto_fits(f, stripped),
        reader::stands_at(b, p, body_code(f)),
    ensures
        grammar::scan_body(b, p, head_read(f)) == grammar::done(
            proto_read(f),
            p + body_code(f).len(),
        ),
{
    reveal(body_code);
    let h = head_read(f);
    let c1 = codes(f.insts, |inst: Instruction| frontend::inst_code(inst));
    let c2 = codes(f.upvalues, |uv: UpvalDesc| reader::code16(uv.raw));
    let c3 = codes(f.gc_consts, |k: GcConstV| gc_code(k));
    let c4 = codes(f.num_consts, |n: NumConst| num_code(n));
    let c5 = debug_opt_code(f);
    lemma_split_five(b, p, c1, c2, c3, c4, c5);
    let p1 = p + c1.len();
    let p2 = p1 + c2.len();
    let p3 = p2 + c3.len();
    let p4 = p3 + c4.len();
    assert(body_code(f).len() == p4 + c5.len() - p);
    lemma_insts(b, p, f.insts, seq![grammar::header_inst(h)]);
    lemma_upvalues(b, p1, f.upvalues);
    lemma_gcs(b, p2, f.gc_consts);
    lemma_nums(b, p3, f.num_consts);
    lemma_debug_opt(b, p4, f, stripped);
}

/// Reading a prototype that was written gives it back.
pub proof fn law_proto_round_trip(b: Seq<u8>, p: int, f: ProtoSource, stripped: bool)
    requires
        proto_fits(f, stripped),
        reader::stands_at(b, p, proto_code(f, stripped)),
    ensures
        grammar::scan_proto(b, p, stripped) == grammar::done(
            proto_read(f),
            p + proto_code(f, stripped).len(),
        ),
{
    reveal(grammar::scan_proto);
    lemma_split(b, p, head_code(f, stripped), body_code(f));
    lemma_head(b, p, f, stripped);
    lemma_body(b, p + head_code(f, stripped).len(), f, stripped);
}

// ---- Modules -------------------------------------------------------------------------

/// A module as it is written.
pub struct ModuleSource {
    pub flags: u32,
    pub chunkname: Seq<u8>,
    pub protos: Seq<ProtoSource>,
}

/// The prototypes of a module, each behind its length, and the zero
/// length that ends them.
pub open spec fn protos_code(protos: Seq<ProtoSource>, stripped: bool) -> Seq<u8>
    decreases protos.len(),
{
    if protos.len() == 0 {
        reader::uleb_code(0)
    } else {
        let code = proto_code(protos[0], stripped);
        reader::uleb_code(code.len()) + (code + protos_code(protos.drop_first(), stripped))
    }
}

/// The chunk name. A stripped dump has none.
pub open spec fn chunkname_code(m: ModuleSource) -> Seq<u8> {
    if ir::flags_stripped(m.flags) {
        seq![]
    } else {
        reader::uleb_code(m.chunkname.len()) + m.chunkname
    }
}

/// A whole dump.
pub open spec fn module_code(m: ModuleSource) -> Seq<u8> {
    seq![0x1bu8, 0x4cu8, 0x4au8, 0x02u8] + (reader::uleb_code(m.flags as nat) + (chunkname_code(m)
        + protos_code(m.protos, ir::flags_stripped(m.flags))))
}

/// Whether a module can be written: a little-endian one with known
/// flags and at least one prototype.
pub open spec fn module_fits(m: ModuleSource) -> bool {
    &&& grammar::header_flags_known(m.flags)
    &&& m.flags & ir::FLAG_BE == 0
    &&& m.chunkname.len() <= u32::MAX
    &&& m.protos.len() > 0
    &&& forall|i: int|
        0 <= i < m.protos.len() ==> proto_fits(
            #[trigger] m.protos[i],
            ir::flags_stripped(m.flags),
        )
}

/// A module as it is read.
pub open spec fn module_read(m: ModuleSource) -> ModuleV {
    ModuleV {
        header: ModuleHeaderV {
            flags: m.flags,
            chunkname: if ir::flags_stripped(m.flags) {
                None
            } else {
                Some(m.chunkname)
            },
        },
        protos: Seq::new(m.protos.len(), |i: int| proto_read(m.protos[i])),
    }
}

/// A prototype's code is not empty.
proof fn lemma_proto_code_len(f: ProtoSource, stripped: bool)
    ensures
        proto_code(f, stripped).len() >= 4,
{
    reveal(head_code);
}

proof fn lemma_protos(
    b: Seq<u8>,
    p: int,
    protos: Seq<ProtoSource>,
    stripped: bool,
    so_far: Seq<ProtoV>,
)
    requires
        forall|i: int| 0 <= i < protos.len() ==> proto_fits(#[trigger] protos[i], stripped),
        protos.len() > 0 || so_far.len() > 0,
        reader::stands_at(b, p, protos_code(protos, stripped)),
    ensures
        grammar::scan_protos(b, p, stripped, so_far) == grammar::done(
            so_far + Seq::new(protos.len(), |i: int| proto_read(protos[i])),
            p + protos_code(protos, stripped).len(),
        ),
    decreases protos.len(),
{
    let read = Seq::new(protos.len(), |i: int| proto_read(protos[i]));
    if protos.len() == 0 {
        reader::law_uleb_round_trip(b, p, 0);
        assert(so_far + read =~= so_far);
    } else {
        let f = protos[0];
        let rest = protos.drop_first();
        let code = proto_code(f, stripped);
        let more = protos_code(rest, stripped);
        assert(proto_fits(protos[0], stripped));
        lemma_proto_code_len(f, stripped);
        let p1 = lemma_uleb(b, p, code.len(), code + more);
        lemma_split(b, p1, code, more);
        let pdata = b.subrange(p1, p1 + code.len());
        assert(pdata == code);
        assert(pdata.subrange(0, code.len() as int) =~= code);
        law_proto_round_trip(pdata, 0, f, stripped);
        assert forall|i: int| 0 <= i < rest.len() implies proto_fits(
            #[trigger] rest[i],
            stripped,
        ) by {
            assert(rest[i] == protos[i + 1]);
        }
        let so_far2 = so_far.push(proto_read(f));
        lemma_protos(b, p1 + code.len(), rest, stripped, so_far2);
        let read_rest = Seq::new(rest.len(), |i: int| proto_read(rest[i]));
        assert(so_far2 + read_rest =~= so_far + read);
        assert(grammar::scan_protos(b, p, stripped, so_far) == grammar::scan_protos(
            b,
            p1 + code.len(),
            stripped,
            so_far2,
        ));
    }
}

proof fn lemma_chunkname(b: Seq<u8>, p: int, m: ModuleSource)
    requires
        m.chunkname.len() <= u32::MAX,
        reader::stands_at(b, p, chunkname_code(m)),
    ensures
        grammar::scan_chunkname(b, p, m.flags) == grammar::done(
            module_read(m).header.chunkname,
            p + chunkname_code(m).len(),
        ),
{
    if !ir::flags_stripped(m.flags) {
        let p1 = lemma_uleb(b, p, m.chunkname.len(), m.chunkname);
        assert(b.subrange(p1, p1 + m.chunkname.len()) == m.chunkname);
    }
}

/// The parser decodes every well-formed dump: reading what was written
/// for a module gives the module back, whatever follows the dump.
pub proof fn law_module_round_trip(b: Seq<u8>, m: ModuleSource)
    requires
        module_fits(m),
        reader::stands_at(b, 0, module_code(m)),
    ensures
        grammar::scan_module(b) == Ok::<ModuleV, Fault>(module_read(m)),
{
    let stripped = ir::flags_stripped(m.flags);
    let c1 = seq![0x1bu8, 0x4cu8, 0x4au8, 0x02u8];
    let c2 = reader::uleb_code(m.flags as nat);
    let c3 = chunkname_code(m);
    let c4 = protos_code(m.protos, stripped);
    lemma_split(b, 0, c1, c2 + (c3 + c4));
    let whole = b.subrange(0, 4);
    assert(whole == c1);
    assert(whole[0] == b[0] && whole[1] == b[1] && whole[2] == b[2] && whole[3] == b[3]);
    assert(b.subrange(0, 3)[0] == b[0] && b.subrange(0, 3)[1] == b[1] && b.subrange(0, 3)[2]
        == b[2]);
    let p2 = lemma_uleb(b, 4, m.flags as nat, c3 + c4);
    lemma_split(b, p2, c3, c4);
    lemma_chunkname(b, p2, m);
    lemma_protos(b, p2 + c3.len(), m.protos, stripped, seq![]);
    let read = module_read(m).protos;
    assert(Seq::<ProtoV>::empty() + read =~= read);
    assert(grammar::scan_header(b) == grammar::done(module_read(m).header, p2 + c3.len()));
}

} // verus!
