//! Template tables: what a TDUP constant lowers to.
//!
//! LuaJIT stores hash entries in bucket order, from which the source
//! order cannot be recovered. Entries are put into a canonical order:
//! string keys first, by their text, then the other keys, by a text
//! form.

use vstd::prelude::*;
use vstd::string::{StrSliceExecFns, StringExecFns};

use crate::ir;
use crate::ir::{KtabK, KtabKV, TableConst, TableConstV};
use crate::number;
use crate::structure::ast;
use crate::structure::ast::{Expr, ExprV, TableEntry, TableEntryV};
use crate::text;

verus! {

// ---- Sorting ------------------------------------------------------------------

/// A table entry together with the text it is sorted by.
pub struct Keyed {
    pub key: String,
    pub entry: TableEntry,
}

/// The mathematical value of a [`Keyed`].
pub struct KeyedV {
    pub key: Seq<char>,
    pub entry: TableEntryV,
}

impl View for Keyed {
    type V = KeyedV;

    open spec fn view(&self) -> KeyedV {
        KeyedV { key: self.key@, entry: self.entry@ }
    }
}

/// Lexicographic order of byte strings.
pub open spec fn bytes_le(a: Seq<u8>, b: Seq<u8>) -> bool
    decreases a.len(),
{
    if a.len() == 0 {
        true
    } else if b.len() == 0 {
        false
    } else if a[0] == b[0] {
        bytes_le(a.drop_first(), b.drop_first())
    } else {
        a[0] < b[0]
    }
}

/// The order of texts: by their UTF-8 bytes.
pub open spec fn text_le(a: Seq<char>, b: Seq<char>) -> bool {
    bytes_le(vstd::utf8::encode_utf8(a), vstd::utf8::encode_utf8(b))
}

/// A sorted list with one more item, behind those that are not greater.
pub open spec fn inserted(s: Seq<KeyedV>, x: KeyedV) -> Seq<KeyedV>
    decreases s.len(),
{
    if s.len() == 0 {
        seq![x]
    } else if text_le(s.last().key, x.key) {
        s.push(x)
    } else {
        inserted(s.drop_last(), x).push(s.last())
    }
}

/// The items sorted by key; items with equal keys keep their order.
pub open spec fn sorted(s: Seq<KeyedV>) -> Seq<KeyedV>
    decreases s.len(),
{
    if s.len() == 0 {
        seq![]
    } else {
        inserted(sorted(s.drop_last()), s.last())
    }
}

/// Whether every key is at most those behind it.
pub open spec fn ascending(s: Seq<KeyedV>) -> bool {
    forall|i: int, j: int|
        0 <= i < j < s.len() ==> text_le((#[trigger] s[i]).key, (#[trigger] s[j]).key)
}

/// The order of byte strings is reflexive.
proof fn lemma_bytes_le_reflexive(a: Seq<u8>)
    ensures
        bytes_le(a, a),
    decreases a.len(),
{
    if a.len() > 0 {
        lemma_bytes_le_reflexive(a.drop_first());
    }
}

/// The order of byte strings is total.
proof fn lemma_bytes_le_total(a: Seq<u8>, b: Seq<u8>)
    ensures
        bytes_le(a, b) || bytes_le(b, a),
    decreases a.len(),
{
    if a.len() > 0 && b.len() > 0 {
        lemma_bytes_le_total(a.drop_first(), b.drop_first());
    }
}

/// The order of byte strings is transitive.
proof fn lemma_bytes_le_transitive(a: Seq<u8>, b: Seq<u8>, c: Seq<u8>)
    requires
        bytes_le(a, b),
        bytes_le(b, c),
    ensures
        bytes_le(a, c),
    decreases a.len(),
{
    if a.len() > 0 && b.len() > 0 && c.len() > 0 && a[0] == b[0] && b[0] == c[0] {
        lemma_bytes_le_transitive(a.drop_first(), b.drop_first(), c.drop_first());
    }
}

/// Inserting keeps a sorted list sorted, and adds just the one item.
proof fn lemma_inserted(s: Seq<KeyedV>, x: KeyedV)
    requires
        ascending(s),
    ensures
        ascending(inserted(s, x)),
        inserted(s, x).to_multiset() == s.to_multiset().insert(x),
        inserted(s, x).len() == s.len() + 1,
        forall|i: int|
            0 <= i < inserted(s, x).len() ==> #[trigger] inserted(s, x)[i] == x || s.contains(
                inserted(s, x)[i],
            ),
    decreases s.len(),
{
    broadcast use vstd::seq_lib::group_to_multiset_ensures;

    let out = inserted(s, x);
    if s.len() == 0 {
        assert(s.push(x) =~= seq![x]);
    } else if text_le(s.last().key, x.key) {
        assert forall|i: int, j: int| 0 <= i < j < out.len() implies text_le(
            (#[trigger] out[i]).key,
            (#[trigger] out[j]).key,
        ) by {
            if j == s.len() && i < s.len() - 1 {
                assert(text_le(s[i].key, s[s.len() - 1].key));
                lemma_bytes_le_transitive(
                    vstd::utf8::encode_utf8(s[i].key),
                    vstd::utf8::encode_utf8(s.last().key),
                    vstd::utf8::encode_utf8(x.key),
                );
            }
        }
        assert forall|i: int| 0 <= i < out.len() implies #[trigger] out[i] == x || s.contains(
            out[i],
        ) by {
            if i < s.len() {
                assert(s[i] == out[i]);
            }
        }
    } else {
        let rest = s.drop_last();
        lemma_inserted(rest, x);
        lemma_bytes_le_total(
            vstd::utf8::encode_utf8(s.last().key),
            vstd::utf8::encode_utf8(x.key),
        );
        let inner = inserted(rest, x);
        assert forall|i: int, j: int| 0 <= i < j < out.len() implies text_le(
            (#[trigger] out[i]).key,
            (#[trigger] out[j]).key,
        ) by {
            if j < inner.len() {
                assert(out[i] == inner[i] && out[j] == inner[j]);
            } else {
                assert(out[i] == inner[i]);
                if inner[i] != x {
                    let k = choose|k: int| 0 <= k < rest.len() && rest[k] == inner[i];
                    assert(s[k] == inner[i]);
                    assert(text_le(s[k].key, s[s.len() - 1].key));
                }
            }
        }
        assert forall|i: int| 0 <= i < out.len() implies #[trigger] out[i] == x || s.contains(
            out[i],
        ) by {
            if i < inner.len() {
                assert(out[i] == inner[i]);
                if inner[i] != x {
                    let k = choose|k: int| 0 <= k < rest.len() && rest[k] == inner[i];
                    assert(s[k] == inner[i]);
                }
            } else {
                assert(s[s.len() - 1] == out[i]);
            }
        }
        assert(s =~= rest.push(s.last()));
        assert(out.to_multiset() =~= s.to_multiset().insert(x));
    }
}

/// Sorting puts the keys in ascending order and neither loses nor
/// invents an item.
pub proof fn law_sorting_orders_the_same_items(s: Seq<KeyedV>)
    ensures
        ascending(sorted(s)),
        sorted(s).to_multiset() == s.to_multiset(),
        sorted(s).len() == s.len(),
    decreases s.len(),
{
    broadcast use vstd::seq_lib::group_to_multiset_ensures;

    if s.len() > 0 {
        law_sorting_orders_the_same_items(s.drop_last());
        lemma_inserted(sorted(s.drop_last()), s.last());
        assert(s =~= s.drop_last().push(s.last()));
    }
}

/// The items with a given key, in order.
pub open spec fn with_key(s: Seq<KeyedV>, key: Seq<char>) -> Seq<KeyedV> {
    s.filter(|x: KeyedV| x.key == key)
}

/// Pushing an item pushes it to the items with its key.
proof fn lemma_with_key_push(s: Seq<KeyedV>, x: KeyedV, key: Seq<char>)
    ensures
        with_key(s.push(x), key) == if x.key == key {
            with_key(s, key).push(x)
        } else {
            with_key(s, key)
        },
{
    reveal(Seq::filter);
    assert(s.push(x).drop_last() =~= s);
}

/// An inserted item stands behind those with the same key.
proof fn lemma_inserted_last(s: Seq<KeyedV>, x: KeyedV, key: Seq<char>)
    ensures
        with_key(inserted(s, x), key) == with_key(s.push(x), key),
    decreases s.len(),
{
    if s.len() == 0 {
        assert(s.push(x) =~= seq![x]);
    } else if !text_le(s.last().key, x.key) {
        let rest = s.drop_last();
        lemma_bytes_le_reflexive(vstd::utf8::encode_utf8(x.key));
        lemma_inserted_last(rest, x, key);
        lemma_with_key_push(inserted(rest, x), s.last(), key);
        lemma_with_key_push(rest, x, key);
        lemma_with_key_push(s, x, key);
        lemma_with_key_push(rest, s.last(), key);
        assert(s =~= rest.push(s.last()));
    }
}

/// Sorting keeps the order of items with equal keys.
pub proof fn law_sorting_is_stable(s: Seq<KeyedV>, key: Seq<char>)
    ensures
        with_key(sorted(s), key) == with_key(s, key),
    decreases s.len(),
{
    if s.len() > 0 {
        let rest = s.drop_last();
        law_sorting_is_stable(rest, key);
        lemma_inserted_last(sorted(rest), s.last(), key);
        lemma_with_key_push(sorted(rest), s.last(), key);
        lemma_with_key_push(rest, s.last(), key);
        assert(s =~= rest.push(s.last()));
    }
}

/// Where an item is inserted.
proof fn lemma_inserted_at(s: Seq<KeyedV>, x: KeyedV, pos: int)
    requires
        0 <= pos <= s.len(),
        pos > 0 ==> text_le(s[pos - 1].key, x.key),
        forall|j: int| pos <= j < s.len() ==> !text_le((#[trigger] s[j]).key, x.key),
    ensures
        inserted(s, x) == s.insert(pos, x),
    decreases s.len(),
{
    if s.len() == 0 {
        assert(s.insert(0, x) =~= seq![x]);
    } else if pos == s.len() {
        assert(s.insert(pos, x) =~= s.push(x));
    } else {
        assert(!text_le(s[s.len() - 1].key, x.key));
        let rest = s.drop_last();
        lemma_inserted_at(rest, x, pos);
        assert(s.insert(pos, x) =~= rest.insert(pos, x).push(s.last()));
    }
}

/// Whether one text is at most another.
fn is_text_le(a: &String, b: &String) -> (le: bool)
    ensures
        le == text_le(a@, b@),
{
    let x = a.as_str().as_bytes();
    let y = b.as_str().as_bytes();
    let mut i: usize = 0;
    proof {
        assert(x@.skip(0) =~= x@);
        assert(y@.skip(0) =~= y@);
    }
    while i < x.len() && i < y.len() && x[i] == y[i]
        invariant
            i <= x@.len(),
            i <= y@.len(),
            bytes_le(x@, y@) == bytes_le(x@.skip(i as int), y@.skip(i as int)),
        decreases x@.len() - i,
    {
        proof {
            assert(x@.skip(i as int).drop_first() =~= x@.skip(i + 1));
            assert(y@.skip(i as int).drop_first() =~= y@.skip(i + 1));
        }
        i = i + 1;
    }
    i >= x.len() || (i < y.len() && x[i] < y[i])
}

/// Put an item into a sorted list, behind those that are not greater.
fn insert_sorted(items: &mut Vec<Keyed>, item: Keyed)
    ensures
        text::views(final(items)@) == inserted(text::views(old(items)@), item@),
{
    let ghost before = text::views(items@);
    let mut pos: usize = items.len();
    while pos > 0 && !is_text_le(&items[pos - 1].key, &item.key)
        invariant
            pos <= items@.len(),
            before == text::views(items@),
            forall|j: int|
                pos <= j < before.len() ==> !text_le((#[trigger] before[j]).key, item@.key),
        decreases pos,
    {
        pos = pos - 1;
        assert(before[pos as int] == items@[pos as int]@);
    }
    proof {
        if pos > 0 {
            assert(before[pos - 1] == items@[pos - 1]@);
        }
        lemma_inserted_at(before, item@, pos as int);
    }
    items.insert(pos, item);
    assert(text::views(items@) =~= before.insert(pos as int, item@));
}

// ---- Table keys and values -------------------------------------------------------

/// The low 32 bits of a 64-bit value, read as two's complement.
pub open spec fn truncated32(n: u64) -> i32 {
    ir::signed32((n % 0x1_0000_0000) as u32)
}

/// A table key or value as an expression. Integers keep their low 32
/// bits.
pub open spec fn ktabk_expr(k: KtabKV) -> ExprV {
    match k {
        KtabKV::Nil => ExprV::Nil,
        KtabKV::False => ExprV::False,
        KtabKV::True => ExprV::True,
        KtabKV::Int(n) => ExprV::Int(truncated32(n)),
        KtabKV::Num(bits) => ExprV::Float(bits),
        KtabKV::Str(bytes) => ExprV::Str(bytes),
    }
}

/// Convert a template-table key/value ([`KtabK`]) to its source
/// [`Expr`] form.
pub fn ktabk_to_expr(k: &KtabK) -> (e: Expr)
    ensures
        e@ == ktabk_expr(k@),
{
    match k {
        KtabK::Nil => Expr::Nil,
        KtabK::False => Expr::False,
        KtabK::True => Expr::True,
        KtabK::Int(n) => Expr::Int(ir::sign_extend32((*n % 0x1_0000_0000) as u32)),
        KtabK::Num(bits) => Expr::Float(*bits),
        KtabK::Str(bytes) => Expr::Str(ast::copy_bytes(bytes)),
    }
}

/// A number with zeros between its sign and its digits, `width`
/// characters in all at least.
pub open spec fn signed_padded(sign: Seq<char>, body: Seq<char>, width: nat) -> Seq<char> {
    sign + text::zero_padded(body, (width - sign.len()) as nat)
}

/// What an integer key shows of itself behind its sign and zeros: a
/// number that is not negative shows itself, and a negative one how far
/// it lies above the least, so that both kinds grow with the key.
pub open spec fn sort_digits(v: i32) -> nat {
    if v < 0 {
        (v - i32::MIN) as nat
    } else {
        v as nat
    }
}

/// How many characters an integer key is padded to. A negative one has
/// nineteen zeros in front of its digits. Other keys thus meet it as they
/// meet a number of one digit, whatever its own digits are: plain digits
/// would put -20000000 behind -1.5, and -1.5 behind -5.
pub open spec fn sort_width(v: i32) -> nat {
    if v < 0 {
        30
    } else {
        20
    }
}

/// The debug form of a byte string: `[97, 98]`.
pub open spec fn byte_list(bytes: Seq<u8>) -> Seq<char> {
    seq!['['] + text::joined(
        Seq::new(bytes.len(), |i: int| text::decimal(bytes[i] as nat)),
        ", "@,
    ) + seq![']']
}

/// The text by which a key is sorted. Numbers have their sign and are
/// zero-padded, which keeps integer keys in numeric order; a float shows
/// six digits behind its point. String keys have a list of their own,
/// sorted by their content.
pub open spec fn sort_text(k: KtabKV) -> Seq<char> {
    match k {
        KtabKV::Nil => "nil"@,
        KtabKV::False => "false"@,
        KtabKV::True => "true"@,
        KtabKV::Int(n) => {
            let v = truncated32(n);
            signed_padded(
                if v < 0 {
                    seq!['-']
                } else {
                    seq![]
                },
                text::decimal(sort_digits(v)),
                sort_width(v),
            )
        },
        KtabKV::Num(bits) => signed_padded(
            if number::nan(bits) {
                seq![]
            } else {
                number::sign(bits)
            },
            number::fixed6(bits),
            20,
        ),
        KtabKV::Str(bytes) => byte_list(bytes),
    }
}

/// Format a table key for deterministic sorting. Integer keys zero-pad
/// to keep numerical order.
pub fn format_key_for_sort(k: &KtabK) -> (out: String)
    ensures
        out@ == sort_text(k@),
{
    match k {
        KtabK::Nil => String::from_str("nil"),
        KtabK::False => String::from_str("false"),
        KtabK::True => String::from_str("true"),
        KtabK::Int(n) => {
            let v: i64 = ir::sign_extend32((*n % 0x1_0000_0000) as u32) as i64;
            let mut body = String::new();
            if v < 0 {
                let digits: u64 = (v + 0x8000_0000) as u64;
                text::push_decimal(&mut body, digits);
                assert(body@ =~= text::decimal(digits as nat));
                pad_number(true, body, 30)
            } else {
                text::push_decimal(&mut body, v as u64);
                assert(body@ =~= text::decimal(v as nat));
                pad_number(false, body, 20)
            }
        },
        KtabK::Num(bits) => {
            let body = number::format_fixed6(*bits);
            let is_nan: bool = *bits % 0x8000_0000_0000_0000 > number::INFINITY_BITS;
            pad_number(!is_nan && *bits >= 0x8000_0000_0000_0000, body, 20)
        },
        KtabK::Str(bytes) => list_bytes(bytes),
    }
}

/// The debug form of a byte string.
fn list_bytes(bytes: &Vec<u8>) -> (out: String)
    ensures
        out@ == byte_list(bytes@),
{
    let mut out = String::new();
    out.push('[');
    let ghost parts = Seq::new(bytes@.len(), |i: int| text::decimal(bytes@[i] as nat));
    let mut i: usize = 0;
    assert(out@ =~= seq!['['] + text::joined(parts.take(0), ", "@));
    while i < bytes.len()
        invariant
            i <= bytes@.len(),
            parts == Seq::new(bytes@.len(), |j: int| text::decimal(bytes@[j] as nat)),
            out@ == seq!['['] + text::joined(parts.take(i as int), ", "@),
        decreases bytes@.len() - i,
    {
        if i > 0 {
            out.append(", ");
        }
        text::push_decimal(&mut out, bytes[i] as u64);
        proof {
            assert(parts.take(i + 1).drop_last() =~= parts.take(i as int));
            assert(parts.take(i + 1).last() == text::decimal(bytes@[i as int] as nat));
            assert(out@ =~= seq!['['] + text::joined(parts.take(i + 1), ", "@));
        }
        i = i + 1;
    }
    assert(parts.take(i as int) =~= parts);
    out.push(']');
    out
}

/// A number with zeros between its sign and its digits, up to `width`
/// characters.
fn pad_number(negative: bool, body: String, width: usize) -> (out: String)
    requires
        width > 0,
    ensures
        out@ == signed_padded(
            if negative {
                seq!['-']
            } else {
                seq![]
            },
            body@,
            width as nat,
        ),
{
    let mut out = String::new();
    let mut rest: usize = width;
    if negative {
        out.push('-');
        rest = width - 1;
    }
    let len: usize = body.as_str().unicode_len();
    if len < rest {
        text::push_zeros(&mut out, rest - len);
    }
    out.append(body.as_str());
    assert(out@ =~= signed_padded(
        if negative {
            seq!['-']
        } else {
            seq![]
        },
        body@,
        width as nat,
    ));
    out
}

// ---- Entries -----------------------------------------------------------------------

/// The last `w` decimal digits of a number, as characters' bytes.
spec fn digit_bytes(n: nat, w: nat) -> Seq<u8>
    decreases w,
{
    if w == 0 {
        seq![]
    } else {
        digit_bytes(n / 10, (w - 1) as nat).push((0x30 + n % 10) as u8)
    }
}

/// Byte strings of one length are ordered by what precedes their last
/// bytes, and then by those.
proof fn lemma_bytes_le_push(p: Seq<u8>, q: Seq<u8>, x: u8, y: u8)
    requires
        p.len() == q.len(),
    ensures
        bytes_le(p.push(x), q.push(y)) <==> if p == q {
            x <= y
        } else {
            bytes_le(p, q)
        },
    decreases p.len(),
{
    let a = p.push(x);
    let b = q.push(y);
    if p.len() == 0 {
        assert(p =~= q);
        assert(a.drop_first() =~= Seq::<u8>::empty());
        assert(bytes_le(a.drop_first(), b.drop_first()));
    } else {
        assert(a.drop_first() =~= p.drop_first().push(x));
        assert(b.drop_first() =~= q.drop_first().push(y));
        lemma_bytes_le_push(p.drop_first(), q.drop_first(), x, y);
        if p[0] == q[0] && p.drop_first() == q.drop_first() {
            assert(p =~= seq![p[0]] + p.drop_first());
            assert(q =~= seq![q[0]] + q.drop_first());
        }
    }
}

/// Digits of one length are in the order of the numbers.
proof fn lemma_digit_bytes_order(a: nat, b: nat, w: nat)
    requires
        a < number::power(10, w),
        b < number::power(10, w),
    ensures
        digit_bytes(a, w).len() == w,
        digit_bytes(b, w).len() == w,
        digit_bytes(a, w) == digit_bytes(b, w) <==> a == b,
        bytes_le(digit_bytes(a, w), digit_bytes(b, w)) <==> a <= b,
    decreases w,
{
    if w > 0 {
        let p = digit_bytes(a / 10, (w - 1) as nat);
        let q = digit_bytes(b / 10, (w - 1) as nat);
        let x = (0x30 + a % 10) as u8;
        let y = (0x30 + b % 10) as u8;
        lemma_digit_bytes_order(a / 10, b / 10, (w - 1) as nat);
        lemma_bytes_le_push(p, q, x, y);
        if p.push(x) == q.push(y) {
            assert(p.push(x).drop_last() =~= p);
            assert(q.push(y).drop_last() =~= q);
            assert(p.push(x).last() == x);
            assert(q.push(y).last() == y);
        }
    }
}

/// A zero-padded numeral has the bytes of its digits.
proof fn lemma_padded_bytes(n: nat, w: nat)
    requires
        w > 0,
        n < number::power(10, w),
    ensures
        vstd::utf8::is_ascii_chars(text::zero_padded(text::decimal(n), w)),
        text::zero_padded(text::decimal(n), w).len() == w,
        vstd::utf8::encode_utf8(text::zero_padded(text::decimal(n), w)) == digit_bytes(n, w),
{
    lemma_padded_digits(n, w);
    let chars = text::zero_padded(text::decimal(n), w);
    assert(vstd::utf8::is_ascii_chars(chars));
    vstd::utf8::is_ascii_chars_encode_utf8(chars);
    lemma_digit_bytes_order(n, n, w);
    assert forall|i: int| 0 <= i < w implies vstd::utf8::encode_utf8(chars)[i] == digit_bytes(
        n,
        w,
    )[i] by {
        assert(chars[i] as u8 == vstd::utf8::encode_utf8(chars)[i]);
    }
    assert(vstd::utf8::encode_utf8(chars) =~= digit_bytes(n, w));
}

/// A zero-padded numeral, character by character.
proof fn lemma_padded_digits(n: nat, w: nat)
    requires
        w > 0,
        n < number::power(10, w),
    ensures
        text::zero_padded(text::decimal(n), w).len() == w,
        digit_bytes(n, w).len() == w,
        forall|i: int|
            0 <= i < w ==> (#[trigger] text::zero_padded(text::decimal(n), w)[i]) as int
                == digit_bytes(n, w)[i] && 0x30 <= digit_bytes(n, w)[i] <= 0x39,
    decreases w,
{
    let chars = text::zero_padded(text::decimal(n), w);
    let bytes = digit_bytes(n, w);
    let last = text::digit_char((n % 10) as int);
    assert(number::power(10, w) == 10 * number::power(10, (w - 1) as nat));
    if w == 1 {
        assert(number::power(10, 0) == 1);
        assert(n < 10);
        assert(chars =~= seq![last]);
        assert(digit_bytes(n / 10, 0).len() == 0);
        assert(bytes =~= seq![(0x30 + n % 10) as u8]);
        assert(last as int == 0x30 + n);
    } else {
        let shorter = text::zero_padded(text::decimal(n / 10), (w - 1) as nat);
        lemma_padded_digits(n / 10, (w - 1) as nat);
        if n < 10 {
            assert(text::decimal(n / 10) =~= seq!['0']);
            assert(shorter =~= text::times('0', (w - 1) as nat));
            assert(chars =~= shorter.push(last));
        } else {
            assert(text::decimal(n) == text::decimal(n / 10).push(last));
            assert(chars =~= shorter.push(last));
        }
        assert forall|i: int| 0 <= i < w implies (#[trigger] chars[i]) as int == bytes[i] && 0x30
            <= bytes[i] <= 0x39 by {
            if i < w - 1 {
                assert(chars[i] == shorter[i]);
            }
        }
    }
}

/// Integer keys sort in numeric order.
pub proof fn law_integer_keys_sort_numerically(a: u64, b: u64)
    ensures
        text_le(sort_text(KtabKV::Int(a)), sort_text(KtabKV::Int(b))) <==> truncated32(a)
            <= truncated32(b),
{
    let x = truncated32(a) as int;
    let y = truncated32(b) as int;
    lemma_powers_of_ten();
    if x >= 0 {
        lemma_nonnegative_key(a);
    } else {
        lemma_negative_key(a);
    }
    if y >= 0 {
        lemma_nonnegative_key(b);
    } else {
        lemma_negative_key(b);
    }
    if x >= 0 && y >= 0 {
        lemma_digit_bytes_order(x as nat, y as nat, 20);
    } else if x < 0 && y < 0 {
        let m = sort_digits(truncated32(a));
        let n = sort_digits(truncated32(b));
        lemma_digit_bytes_order(m, n, 29);
        assert((seq![0x2du8] + digit_bytes(m, 29)).drop_first() =~= digit_bytes(m, 29));
        assert((seq![0x2du8] + digit_bytes(n, 29)).drop_first() =~= digit_bytes(n, 29));
    } else {
        let p = vstd::utf8::encode_utf8(sort_text(KtabKV::Int(a)));
        let q = vstd::utf8::encode_utf8(sort_text(KtabKV::Int(b)));
        assert(p[0] != q[0]);
    }
}

/// Powers of ten that no integer key reaches.
proof fn lemma_powers_of_ten()
    ensures
        number::power(10, 10) > 0x8000_0000,
        number::power(10, 20) > 0x1_0000_0000,
        number::power(10, 29) > 0x1_0000_0000,
{
    reveal_with_fuel(number::power, 30);
}

/// How an integer key that is not negative is compared.
proof fn lemma_nonnegative_key(n: u64)
    requires
        truncated32(n) >= 0,
        number::power(10, 20) > 0x1_0000_0000,
    ensures
        vstd::utf8::encode_utf8(sort_text(KtabKV::Int(n))) == digit_bytes(
            truncated32(n) as nat,
            20,
        ),
        digit_bytes(truncated32(n) as nat, 20).len() == 20,
        digit_bytes(truncated32(n) as nat, 20)[0] >= 0x30,
{
    let v = truncated32(n) as nat;
    lemma_padded_bytes(v, 20);
    lemma_padded_digits(v, 20);
    assert(sort_text(KtabKV::Int(n)) =~= text::zero_padded(text::decimal(v), 20));
    assert(text::zero_padded(text::decimal(v), 20)[0] as int == digit_bytes(v, 20)[0]);
}

/// How a negative integer key is compared: by its sign, then by how far
/// it lies above the least one.
proof fn lemma_negative_key(n: u64)
    requires
        truncated32(n) < 0,
        number::power(10, 29) > 0x1_0000_0000,
    ensures
        vstd::utf8::encode_utf8(sort_text(KtabKV::Int(n))) == seq![0x2du8] + digit_bytes(
            sort_digits(truncated32(n)),
            29,
        ),
        digit_bytes(sort_digits(truncated32(n)), 29).len() == 29,
{
    let v = sort_digits(truncated32(n));
    let body = text::zero_padded(text::decimal(v), 29);
    lemma_padded_bytes(v, 29);
    let chars = sort_text(KtabKV::Int(n));
    assert(chars =~= seq!['-'] + body);
    assert forall|i: int| 0 <= i < chars.len() implies '\0' <= #[trigger] chars[i]
        <= '\u{7f}' by {
        if i > 0 {
            assert(chars[i] == body[i - 1]);
        }
    }
    assert(vstd::utf8::is_ascii_chars(chars));
    vstd::utf8::is_ascii_chars_encode_utf8(chars);
    assert('-' as u8 == 0x2d);
    let encoded = vstd::utf8::encode_utf8(chars);
    let expected = seq![0x2du8] + digit_bytes(v, 29);
    lemma_padded_digits(v, 29);
    assert forall|i: int| 0 <= i < 30 implies encoded[i] == expected[i] by {
        assert(chars[i] as u8 == encoded[i]);
        if i > 0 {
            assert(body[i - 1] as int == digit_bytes(v, 29)[i - 1]);
        }
    }
    assert(encoded =~= expected);
}

/// A number below a power of ten has at most as many digits.
proof fn lemma_decimal_len(n: nat, k: nat)
    requires
        k > 0,
        n < number::power(10, k),
    ensures
        0 < text::decimal(n).len() <= k,
    decreases k,
{
    assert(number::power(10, k) == 10 * number::power(10, (k - 1) as nat));
    if n >= 10 {
        if k == 1 {
            assert(number::power(10, 0) == 1);
        }
        lemma_decimal_len(n / 10, (k - 1) as nat);
    }
}

/// A numeral is made of digits, and zero alone starts with one.
proof fn lemma_decimal_digits(n: nat)
    ensures
        text::decimal(n).len() > 0,
        text::decimal(n)[0] == '0' <==> n == 0,
        forall|i: int|
            0 <= i < text::decimal(n).len() ==> '0' <= #[trigger] text::decimal(n)[i] <= '9',
    decreases n,
{
    if n >= 10 {
        lemma_decimal_digits(n / 10);
    }
}

/// Byte strings are ordered by the first byte in which they differ.
proof fn lemma_first_difference(a: Seq<u8>, b: Seq<u8>, k: int)
    requires
        0 <= k < a.len(),
        k < b.len(),
        forall|i: int| 0 <= i < k ==> a[i] == b[i],
        a[k] != b[k],
    ensures
        bytes_le(a, b) <==> a[k] < b[k],
    decreases k,
{
    if k > 0 {
        lemma_first_difference(a.drop_first(), b.drop_first(), k - 1);
    }
}

/// A negative integer key sorts before the negative floats that six
/// places show as -1 or less, and behind those nearer to zero.
pub proof fn law_negative_integers_among_floats(n: u64, bits: u64)
    requires
        truncated32(n) < 0,
        !number::nan(bits),
        number::sign(bits) == seq!['-'],
    ensures
        text_le(sort_text(KtabKV::Int(n)), sort_text(KtabKV::Num(bits))) <==> number::infinite(bits)
            || number::millionths(bits) >= 1_000_000,
{
    lemma_powers_of_ten();
    lemma_negative_key(n);
    let v = sort_digits(truncated32(n));
    lemma_decimal_len(v, 10);
    lemma_padded_digits(v, 29);
    let padded = text::zero_padded(text::decimal(v), 29);
    let p = vstd::utf8::encode_utf8(sort_text(KtabKV::Int(n)));
    assert forall|i: int| 1 <= i < 20 implies p[i] == 0x30 by {
        assert(padded[i - 1] == '0');
        assert(padded[i - 1] as int == digit_bytes(v, 29)[i - 1]);
    }
    let chars = sort_text(KtabKV::Num(bits));
    let body = number::fixed6(bits);
    let zeros: int = if body.len() < 19 {
        19 - body.len()
    } else {
        0
    };
    let whole = text::decimal(number::millionths(bits) / 1_000_000);
    let part = text::decimal(number::millionths(bits) % 1_000_000);
    lemma_decimal_digits(number::millionths(bits) / 1_000_000);
    lemma_decimal_digits(number::millionths(bits) % 1_000_000);
    assert(number::power(10, 6) == 1_000_000) by {
        reveal_with_fuel(number::power, 7);
    }
    lemma_decimal_len(number::millionths(bits) % 1_000_000, 6);
    let places = text::zero_padded(part, 6);
    assert(places.len() == 6);
    reveal_strlit("inf");
    assert(chars =~= seq!['-'] + text::times('0', zeros as nat) + body);
    assert forall|i: int| 0 <= i < body.len() implies '\0' <= #[trigger] body[i] <= '\u{7f}' by {
        if !number::infinite(bits) {
            assert(body == whole + seq!['.'] + places);
            if i < whole.len() {
                assert(body[i] == whole[i]);
            } else if i > whole.len() {
                let j = i - whole.len() - 1;
                assert(body[i] == places[j]);
                if j >= 6 - part.len() {
                    assert(places[j] == part[j - (6 - part.len())]);
                }
            }
        }
    }
    assert forall|i: int| 0 <= i < chars.len() implies '\0' <= #[trigger] chars[i]
        <= '\u{7f}' by {
        if i > zeros {
            assert(chars[i] == body[i - 1 - zeros]);
        }
    }
    assert(vstd::utf8::is_ascii_chars(chars));
    vstd::utf8::is_ascii_chars_encode_utf8(chars);
    let q = vstd::utf8::encode_utf8(chars);
    // The first place where the two differ: the first digit of the
    // float, or its point when that digit is zero.
    let k = if number::infinite(bits) || number::millionths(bits) >= 1_000_000 {
        1 + zeros
    } else {
        2 + zeros
    };
    assert forall|i: int| 0 <= i < k implies p[i] == q[i] by {
        assert(chars[i] as u8 == q[i]);
        if i == 1 + zeros {
            assert(chars[i] == body[0]);
            assert(body[0] == whole[0]);
        }
    }
    assert(chars[k] as u8 == q[k]);
    assert(chars[k] == body[k - 1 - zeros]);
    if !number::infinite(bits) {
        assert(body == whole + seq!['.'] + places);
        if number::millionths(bits) < 1_000_000 {
            assert(whole =~= seq!['0']);
            assert(body[1] == '.');
        } else {
            assert(body[0] == whole[0]);
        }
    }
    lemma_first_difference(p, q, k);
}

/// The array part without the unused entry at index 0, which LuaJIT
/// stores as nil.
pub open spec fn array_part(array: Seq<KtabKV>) -> Seq<KtabKV> {
    if array.len() > 0 && array[0] is Nil {
        array.drop_first()
    } else {
        array
    }
}

/// The hash entries with string keys, in stored order.
pub open spec fn string_entries(hash: Seq<(KtabKV, KtabKV)>) -> Seq<KeyedV>
    decreases hash.len(),
{
    if hash.len() == 0 {
        seq![]
    } else {
        let rest = string_entries(hash.drop_last());
        match hash.last().0 {
            KtabKV::Str(bytes) => rest.push(
                KeyedV {
                    key: text::utf8_lossy(bytes),
                    entry: TableEntryV::HashStr(
                        text::utf8_lossy(bytes),
                        ktabk_expr(hash.last().1),
                    ),
                },
            ),
            _ => rest,
        }
    }
}

/// The hash entries with other keys, in stored order.
pub open spec fn other_entries(hash: Seq<(KtabKV, KtabKV)>) -> Seq<KeyedV>
    decreases hash.len(),
{
    if hash.len() == 0 {
        seq![]
    } else {
        let rest = other_entries(hash.drop_last());
        match hash.last().0 {
            KtabKV::Str(bytes) => rest,
            key => rest.push(
                KeyedV {
                    key: sort_text(key),
                    entry: TableEntryV::HashExpr(ktabk_expr(key), ktabk_expr(hash.last().1)),
                },
            ),
        }
    }
}

/// The entries of keyed items.
pub open spec fn bare(s: Seq<KeyedV>) -> Seq<TableEntryV> {
    Seq::new(s.len(), |i: int| s[i].entry)
}

/// The entries of a template table: the array part in order, then the
/// string keys sorted, then the other keys sorted.
pub open spec fn table_entries(t: TableConstV) -> Seq<TableEntryV> {
    let array = array_part(t.array);
    Seq::new(array.len(), |i: int| TableEntryV::Array(ktabk_expr(array[i]))) + bare(
        sorted(string_entries(t.hash)),
    ) + bare(sorted(other_entries(t.hash)))
}

/// Whether an expression is a template's key or value. Integers are read
/// modulo 2^32.
pub open spec fn stands_for(e: ExprV, k: KtabKV) -> bool {
    match (k, e) {
        (KtabKV::Nil, ExprV::Nil) => true,
        (KtabKV::False, ExprV::False) => true,
        (KtabKV::True, ExprV::True) => true,
        (KtabKV::Int(n), ExprV::Int(i)) => (n - i) % 0x1_0000_0000 == 0,
        (KtabKV::Num(bits), ExprV::Float(f)) => f == bits,
        (KtabKV::Str(bytes), ExprV::Str(s)) => s == bytes,
        _ => false,
    }
}

/// Whether an entry of a literal is a hash entry of a template.
#[verifier::opaque]
pub open spec fn enters(entry: TableEntryV, pair: (KtabKV, KtabKV)) -> bool {
    match (entry, pair.0) {
        (TableEntryV::HashStr(name, value), KtabKV::Str(bytes)) => name == text::utf8_lossy(bytes)
            && stands_for(value, pair.1),
        (TableEntryV::HashExpr(key, value), k) => !(k is Str) && stands_for(key, k) && stands_for(
            value,
            pair.1,
        ),
        _ => false,
    }
}

proof fn lemma_stands_for(k: KtabKV)
    ensures
        stands_for(ktabk_expr(k), k),
{
    if let KtabKV::Int(n) = k {
        let low = n % 0x1_0000_0000;
        assert((n - low) % 0x1_0000_0000 == 0);
        assert((n - (low - 0x1_0000_0000)) % 0x1_0000_0000 == 0);
    }
}

/// Whether one of the entries from `from` on is the given hash entry.
pub open spec fn has_pair(entries: Seq<TableEntryV>, from: int, pair: (KtabKV, KtabKV)) -> bool {
    exists|j: int| from <= j < entries.len() && enters(#[trigger] entries[j], pair)
}

/// Whether an entry is one of the hash entries.
pub open spec fn is_pair(hash: Seq<(KtabKV, KtabKV)>, entry: TableEntryV) -> bool {
    exists|i: int| 0 <= i < hash.len() && enters(entry, #[trigger] hash[i])
}

proof fn lemma_is_pair(hash: Seq<(KtabKV, KtabKV)>, entry: TableEntryV)
    requires
        hash.len() > 0,
        is_pair(hash.drop_last(), entry),
    ensures
        is_pair(hash, entry),
{
    let i = choose|i: int|
        0 <= i < hash.drop_last().len() && enters(entry, #[trigger] hash.drop_last()[i]);
    assert(enters(entry, hash[i]));
}

/// The string entries are hash entries, under their names.
proof fn lemma_string_entries(hash: Seq<(KtabKV, KtabKV)>)
    ensures
        forall|j: int|
            0 <= j < string_entries(hash).len() ==> {
                let item = #[trigger] string_entries(hash)[j];
                &&& item.entry matches TableEntryV::HashStr(name, _) && name == item.key
                &&& is_pair(hash, item.entry)
            },
    decreases hash.len(),
{
    if hash.len() > 0 {
        lemma_string_entries(hash.drop_last());
        lemma_stands_for(hash.last().1);
        reveal(enters);
        let ss = string_entries(hash);
        let ss0 = string_entries(hash.drop_last());
        assert forall|j: int| 0 <= j < ss.len() implies {
            let item = #[trigger] ss[j];
            &&& item.entry matches TableEntryV::HashStr(name, _) && name == item.key
            &&& is_pair(hash, item.entry)
        } by {
            if j < ss0.len() {
                assert(ss[j] == ss0[j]);
                lemma_is_pair(hash, ss[j].entry);
            } else {
                assert(enters(ss[j].entry, hash[hash.len() - 1]));
            }
        }
    }
}

/// The other entries are hash entries, under expressions.
proof fn lemma_other_entries(hash: Seq<(KtabKV, KtabKV)>)
    ensures
        forall|j: int|
            0 <= j < other_entries(hash).len() ==> {
                let item = #[trigger] other_entries(hash)[j];
                &&& item.entry is HashExpr
                &&& is_pair(hash, item.entry)
            },
    decreases hash.len(),
{
    if hash.len() > 0 {
        lemma_other_entries(hash.drop_last());
        lemma_stands_for(hash.last().0);
        lemma_stands_for(hash.last().1);
        reveal(enters);
        let os = other_entries(hash);
        let os0 = other_entries(hash.drop_last());
        assert forall|j: int| 0 <= j < os.len() implies {
            let item = #[trigger] os[j];
            &&& item.entry is HashExpr
            &&& is_pair(hash, item.entry)
        } by {
            if j < os0.len() {
                assert(os[j] == os0[j]);
                lemma_is_pair(hash, os[j].entry);
            } else {
                assert(enters(os[j].entry, hash[hash.len() - 1]));
            }
        }
    }
}

/// Each hash entry is in one of the two lists.
proof fn lemma_hash_lists(hash: Seq<(KtabKV, KtabKV)>)
    ensures
        string_entries(hash).len() + other_entries(hash).len() == hash.len(),
        forall|i: int|
            0 <= i < hash.len() ==> has_pair(bare(string_entries(hash)), 0, #[trigger] hash[i])
                || has_pair(bare(other_entries(hash)), 0, hash[i]),
    decreases hash.len(),
{
    if hash.len() > 0 {
        let init = hash.drop_last();
        lemma_hash_lists(init);
        lemma_stands_for(hash.last().0);
        lemma_stands_for(hash.last().1);
        let ss = bare(string_entries(hash));
        let os = bare(other_entries(hash));
        let ss0 = bare(string_entries(init));
        let os0 = bare(other_entries(init));
        assert forall|i: int| 0 <= i < hash.len() implies has_pair(ss, 0, #[trigger] hash[i])
            || has_pair(os, 0, hash[i]) by {
            if i < hash.len() - 1 {
                assert(init[i] == hash[i]);
                if has_pair(ss0, 0, init[i]) {
                    let j = choose|j: int| 0 <= j < ss0.len() && enters(#[trigger] ss0[j], init[i]);
                    assert(ss[j] == ss0[j]);
                } else {
                    let j = choose|j: int| 0 <= j < os0.len() && enters(#[trigger] os0[j], init[i]);
                    assert(os[j] == os0[j]);
                }
            } else if hash.last().0 is Str {
                assert(enters(ss[ss.len() - 1], hash[i])) by {
                    reveal(enters);
                }
            } else {
                assert(enters(os[os.len() - 1], hash[i])) by {
                    reveal(enters);
                }
            }
        }
    }
}

/// Sorting keeps each item.
proof fn lemma_sorted_members(s: Seq<KeyedV>)
    ensures
        sorted(s).len() == s.len(),
        forall|i: int| 0 <= i < s.len() ==> sorted(s).contains(#[trigger] s[i]),
        forall|j: int| 0 <= j < s.len() ==> s.contains(#[trigger] sorted(s)[j]),
{
    broadcast use vstd::seq_lib::group_to_multiset_ensures;

    law_sorting_orders_the_same_items(s);
    assert forall|i: int| 0 <= i < s.len() implies sorted(s).contains(#[trigger] s[i]) by {
        assert(s.contains(s[i]));
        assert(s.to_multiset().count(s[i]) > 0);
    }
    assert forall|j: int| 0 <= j < s.len() implies s.contains(#[trigger] sorted(s)[j]) by {
        assert(sorted(s).contains(sorted(s)[j]));
        assert(sorted(s).to_multiset().count(sorted(s)[j]) > 0);
    }
}

/// How many entries in front of the array part are left out.
pub open spec fn array_skip(t: TableConstV) -> int {
    if t.array.len() > 0 && t.array[0] is Nil {
        1
    } else {
        0
    }
}

/// Whether two entries are in order: string keys in front of others, and
/// by their bytes.
pub open spec fn in_order(a: TableEntryV, b: TableEntryV) -> bool {
    match (a, b) {
        (TableEntryV::HashStr(x, _), TableEntryV::HashStr(y, _)) => text_le(x, y),
        (TableEntryV::HashExpr(..), TableEntryV::HashStr(..)) => false,
        _ => true,
    }
}

/// A table literal holds its template: first the array part in order,
/// without the nil that LuaJIT stores in front, then one entry for each
/// hash entry, those with string keys first and in the order of their
/// keys.
pub proof fn law_literal_holds_its_template(t: TableConstV)
    ensures
        table_entries(t).len() == t.array.len() - array_skip(t) + t.hash.len(),
        forall|i: int|
            0 <= i < t.array.len() - array_skip(t) ==> ((
            #[trigger] table_entries(t)[i]) matches TableEntryV::Array(e) && stands_for(
                e,
                t.array[i + array_skip(t)],
            )),
        forall|i: int|
            0 <= i < t.hash.len() ==> has_pair(
                table_entries(t),
                t.array.len() - array_skip(t),
                #[trigger] t.hash[i],
            ),
        forall|j: int|
            t.array.len() - array_skip(t) <= j < table_entries(t).len() ==> is_pair(
                t.hash,
                #[trigger] table_entries(t)[j],
            ),
        forall|i: int, j: int|
            t.array.len() - array_skip(t) <= i < j < table_entries(t).len() ==> in_order(
                #[trigger] table_entries(t)[i],
                #[trigger] table_entries(t)[j],
            ),
{
    let array = array_part(t.array);
    let n = array.len() as int;
    let entries = table_entries(t);
    lemma_lengths(t);
    assert forall|i: int| 0 <= i < n implies ((#[trigger] entries[i]) matches TableEntryV::Array(e)
        && stands_for(e, t.array[i + array_skip(t)])) by {
        lemma_stands_for(array[i]);
        assert(array[i] == t.array[i + array_skip(t)]);
    }
    assert forall|i: int| 0 <= i < t.hash.len() implies has_pair(
        entries,
        n,
        #[trigger] t.hash[i],
    ) by {
        lemma_pair_kept(t, i);
    }
    assert forall|j: int| n <= j < entries.len() implies is_pair(t.hash, #[trigger] entries[j]) by {
        lemma_hash_part(t, j);
    }
    assert forall|i: int, j: int| n <= i < j < entries.len() implies in_order(
        #[trigger] entries[i],
        #[trigger] entries[j],
    ) by {
        lemma_hash_part(t, i);
        lemma_hash_part(t, j);
        law_sorting_orders_the_same_items(string_entries(t.hash));
    }
}

proof fn lemma_lengths(t: TableConstV)
    ensures
        array_part(t.array).len() == t.array.len() - array_skip(t),
        table_entries(t).len() == array_part(t.array).len() + t.hash.len(),
{
    lemma_hash_lists(t.hash);
    law_sorting_orders_the_same_items(string_entries(t.hash));
    law_sorting_orders_the_same_items(other_entries(t.hash));
}

/// Each hash entry is among the entries.
proof fn lemma_pair_kept(t: TableConstV, i: int)
    requires
        0 <= i < t.hash.len(),
    ensures
        has_pair(table_entries(t), array_part(t.array).len() as int, t.hash[i]),
{
    let n = array_part(t.array).len() as int;
    let ss = string_entries(t.hash);
    let os = other_entries(t.hash);
    let m = ss.len() as int;
    let entries = table_entries(t);
    lemma_hash_lists(t.hash);
    lemma_sorted_members(ss);
    lemma_sorted_members(os);
    if has_pair(bare(ss), 0, t.hash[i]) {
        let j = choose|j: int|
            0 <= j < bare(ss).len() && enters(#[trigger] bare(ss)[j], t.hash[i]);
        assert(sorted(ss).contains(ss[j]));
        let k = choose|k: int| 0 <= k < sorted(ss).len() && sorted(ss)[k] == ss[j];
        assert(entries[n + k] == sorted(ss)[k].entry);
    } else {
        let j = choose|j: int|
            0 <= j < bare(os).len() && enters(#[trigger] bare(os)[j], t.hash[i]);
        assert(sorted(os).contains(os[j]));
        let k = choose|k: int| 0 <= k < sorted(os).len() && sorted(os)[k] == os[j];
        assert(entries[n + m + k] == sorted(os)[k].entry);
    }
}

/// An entry behind the array part is one of the sorted lists'.
proof fn lemma_hash_part(t: TableConstV, j: int)
    requires
        array_part(t.array).len() <= j < table_entries(t).len(),
    ensures
        ({
            let n = array_part(t.array).len() as int;
            let m = string_entries(t.hash).len() as int;
            let first = sorted(string_entries(t.hash));
            let entry = table_entries(t)[j];
            &&& is_pair(t.hash, entry)
            &&& first.len() == m
            &&& j < n + m ==> entry == first[j - n].entry && (
            entry matches TableEntryV::HashStr(name, _) && name == first[j - n].key)
            &&& j >= n + m ==> entry is HashExpr
        }),
{
    let n = array_part(t.array).len() as int;
    let ss = string_entries(t.hash);
    let os = other_entries(t.hash);
    let m = ss.len() as int;
    lemma_sorted_members(ss);
    lemma_sorted_members(os);
    lemma_string_entries(t.hash);
    lemma_other_entries(t.hash);
    if j < n + m {
        let item = sorted(ss)[j - n];
        assert(table_entries(t)[j] == item.entry);
        assert(ss.contains(item));
        let k = choose|k: int| 0 <= k < ss.len() && ss[k] == item;
        assert(ss[k] == item);
    } else {
        let item = sorted(os)[j - n - m];
        assert(table_entries(t)[j] == item.entry);
        assert(os.contains(item));
        let k = choose|k: int| 0 <= k < os.len() && os[k] == item;
        assert(os[k] == item);
    }
}

/// What an entry without a string key is compared by.
proof fn lemma_other_key(hash: Seq<(KtabKV, KtabKV)>, j: int) -> (k: KtabKV)
    requires
        0 <= j < other_entries(hash).len(),
    ensures
        other_entries(hash)[j].key == sort_text(k),
        other_entries(hash)[j].entry matches TableEntryV::HashExpr(e, _) && e == ktabk_expr(k),
    decreases hash.len(),
{
    let rest = other_entries(hash.drop_last());
    if j < rest.len() {
        lemma_other_key(hash.drop_last(), j)
    } else {
        hash.last().0
    }
}

/// Where an entry without a string key stands among the sorted ones.
proof fn lemma_other_part(t: TableConstV, j: int) -> (k: KtabKV)
    requires
        array_part(t.array).len() <= j < table_entries(t).len(),
        table_entries(t)[j] is HashExpr,
    ensures
        ({
            let at = j - array_part(t.array).len() - string_entries(t.hash).len();
            let items = sorted(other_entries(t.hash));
            &&& 0 <= at < items.len()
            &&& items[at].key == sort_text(k)
            &&& table_entries(t)[j] matches TableEntryV::HashExpr(e, _) && e == ktabk_expr(k)
        }),
{
    let os = other_entries(t.hash);
    let at = j - array_part(t.array).len() - string_entries(t.hash).len();
    lemma_hash_part(t, j);
    lemma_sorted_members(string_entries(t.hash));
    lemma_sorted_members(os);
    assert(table_entries(t)[j] == sorted(os)[at].entry);
    assert(os.contains(sorted(os)[at]));
    let i = choose|i: int| 0 <= i < os.len() && os[i] == sorted(os)[at];
    lemma_other_key(t.hash, i)
}

/// The entries of a literal with integer keys stand in the order of
/// their keys.
pub proof fn law_literals_list_integer_keys_in_order(t: TableConstV, i: int, j: int)
    requires
        t.array.len() - array_skip(t) <= i < j < table_entries(t).len(),
        table_entries(t)[i] matches TableEntryV::HashExpr(e, _) && e is Int,
        table_entries(t)[j] matches TableEntryV::HashExpr(e, _) && e is Int,
    ensures
        table_entries(t)[i]->HashExpr_0->Int_0 <= table_entries(t)[j]->HashExpr_0->Int_0,
{
    lemma_lengths(t);
    let a = lemma_other_part(t, i);
    let b = lemma_other_part(t, j);
    law_sorting_orders_the_same_items(other_entries(t.hash));
    let n = array_part(t.array).len() + string_entries(t.hash).len();
    let items = sorted(other_entries(t.hash));
    assert(text_le(items[i - n].key, items[j - n].key));
    match (a, b) {
        (KtabKV::Int(x), KtabKV::Int(y)) => {
            law_integer_keys_sort_numerically(x, y);
        },
        _ => {},
    }
}

/// Byte strings with fronts of one length are ordered by these, and then
/// by what follows.
proof fn lemma_bytes_le_fronts(p: Seq<u8>, q: Seq<u8>, x: Seq<u8>, y: Seq<u8>)
    requires
        p.len() == q.len(),
    ensures
        bytes_le(p + x, q + y) <==> if p == q {
            bytes_le(x, y)
        } else {
            bytes_le(p, q)
        },
    decreases p.len(),
{
    if p.len() == 0 {
        assert(p =~= q);
        assert(p + x =~= x);
        assert(q + y =~= y);
    } else {
        assert((p + x).drop_first() =~= p.drop_first() + x);
        assert((q + y).drop_first() =~= q.drop_first() + y);
        lemma_bytes_le_fronts(p.drop_first(), q.drop_first(), x, y);
        if p[0] == q[0] && p.drop_first() == q.drop_first() {
            assert(p =~= seq![p[0]] + p.drop_first());
            assert(q =~= seq![q[0]] + q.drop_first());
        }
    }
}

/// How a float key that is not negative is compared: by its whole part,
/// then by its millionths.
proof fn lemma_float_key(bits: u64)
    requires
        !number::negative(bits),
        number::magnitude(bits) < number::INFINITY_BITS,
        number::millionths(bits) / 1_000_000 < number::power(10, 13),
    ensures
        ({
            let m = number::millionths(bits);
            vstd::utf8::encode_utf8(sort_text(KtabKV::Num(bits))) == digit_bytes(m / 1_000_000, 13)
                + (seq![0x2eu8] + digit_bytes(m % 1_000_000, 6))
        }),
{
    let m = number::millionths(bits);
    let (w, f) = (m / 1_000_000, m % 1_000_000);
    assert(number::power(10, 6) == 1_000_000) by {
        reveal_with_fuel(number::power, 7);
    }
    lemma_padded_digits(w, 13);
    lemma_padded_digits(f, 6);
    lemma_decimal_len(w, 13);
    let whole = text::zero_padded(text::decimal(w), 13);
    let part = text::zero_padded(text::decimal(f), 6);
    let chars = sort_text(KtabKV::Num(bits));
    assert(chars =~= whole + seq!['.'] + part);
    assert forall|i: int| 0 <= i < chars.len() implies '\0' <= #[trigger] chars[i]
        <= '\u{7f}' by {
        if i < 13 {
            assert(chars[i] == whole[i]);
        } else if i > 13 {
            assert(chars[i] == part[i - 14]);
        }
    }
    assert(vstd::utf8::is_ascii_chars(chars));
    vstd::utf8::is_ascii_chars_encode_utf8(chars);
    let encoded = vstd::utf8::encode_utf8(chars);
    let expected = digit_bytes(w, 13) + (seq![0x2eu8] + digit_bytes(f, 6));
    assert('.' as u8 == 0x2e);
    assert forall|i: int| 0 <= i < 20 implies encoded[i] == expected[i] by {
        assert(chars[i] as u8 == encoded[i]);
        if i < 13 {
            assert(whole[i] as int == digit_bytes(w, 13)[i]);
        } else if i > 13 {
            assert(part[i - 14] as int == digit_bytes(f, 6)[i - 14]);
        }
    }
    assert(encoded =~= expected);
}

/// Float keys that are not negative and have at most thirteen digits
/// before the point sort in numeric order, to the millionth.
pub proof fn law_float_keys_sort_numerically(a: u64, b: u64)
    requires
        !number::negative(a),
        !number::negative(b),
        number::magnitude(a) < number::INFINITY_BITS,
        number::magnitude(b) < number::INFINITY_BITS,
        number::millionths(a) / 1_000_000 < number::power(10, 13),
        number::millionths(b) / 1_000_000 < number::power(10, 13),
    ensures
        text_le(sort_text(KtabKV::Num(a)), sort_text(KtabKV::Num(b))) <==> number::millionths(a)
            <= number::millionths(b),
{
    let (m, n) = (number::millionths(a), number::millionths(b));
    let (w, v) = (m / 1_000_000, n / 1_000_000);
    let (f, g) = (m % 1_000_000, n % 1_000_000);
    lemma_float_key(a);
    lemma_float_key(b);
    assert(number::power(10, 6) == 1_000_000) by {
        reveal_with_fuel(number::power, 7);
    }
    lemma_digit_bytes_order(w, v, 13);
    lemma_digit_bytes_order(f, g, 6);
    let (x, y) = (digit_bytes(f, 6), digit_bytes(g, 6));
    lemma_bytes_le_fronts(digit_bytes(w, 13), digit_bytes(v, 13), seq![0x2eu8] + x, seq![0x2eu8]
        + y);
    assert((seq![0x2eu8] + x).drop_first() =~= x);
    assert((seq![0x2eu8] + y).drop_first() =~= y);
}

/// The order of byte strings is by the first byte in which they differ;
/// without one, the shorter comes first.
pub proof fn law_bytes_order(a: Seq<u8>, b: Seq<u8>, k: int)
    requires
        0 <= k <= a.len(),
        k <= b.len(),
        forall|i: int| 0 <= i < k ==> a[i] == b[i],
    ensures
        k == a.len() ==> bytes_le(a, b),
        k < a.len() && k == b.len() ==> !bytes_le(a, b),
        k < a.len() && k < b.len() && a[k] != b[k] ==> (bytes_le(a, b) <==> a[k] < b[k]),
    decreases k,
{
    if k > 0 {
        law_bytes_order(a.drop_first(), b.drop_first(), k - 1);
    }
}

/// How many leading entries of the array part are left out: LuaJIT
/// always stores a `Nil` at array index 0 (the slot that Lua's 1-based
/// indexing skips). A template without it is passed through verbatim.
pub fn skip_leading_nil_sentinel(array: &Vec<KtabK>) -> (from: usize)
    ensures
        from <= array@.len(),
        array_part(text::views(array@)) == text::views(array@).skip(from as int),
{
    let ghost all = text::views(array@);
    if array.len() > 0 {
        assert(all[0] == array@[0]@);
        if matches!(array[0], KtabK::Nil) {
            assert(all.drop_first() =~= all.skip(1));
            return 1;
        }
    }
    assert(all.skip(0) =~= all);
    0
}

/// Appends the entries of sorted items.
fn append_bare(entries: &mut Vec<TableEntry>, items: Vec<Keyed>)
    ensures
        ast::entries_v(final(entries)@) == ast::entries_v(old(entries)@) + bare(
            text::views(items@),
        ),
{
    let ghost all = text::views(items@);
    let mut i: usize = 0;
    assert(ast::entries_v(entries@) =~= ast::entries_v(old(entries)@) + bare(all).take(0));
    while i < items.len()
        invariant
            i <= items@.len(),
            all == text::views(items@),
            ast::entries_v(entries@) == ast::entries_v(old(entries)@) + bare(all).take(i as int),
        decreases items@.len() - i,
    {
        let entry = items[i].entry.clone();
        proof {
            ast::lemma_entries_push(entries@, entry);
            assert(all[i as int] == items@[i as int]@);
            assert(bare(all).take(i + 1) =~= bare(all).take(i as int).push(entry@));
        }
        entries.push(entry);
        i = i + 1;
        assert(ast::entries_v(entries@) =~= ast::entries_v(old(entries)@) + bare(all).take(
            i as int,
        ));
    }
    assert(bare(all).take(i as int) =~= bare(all));
}

/// Rebuild a [`TableConst`] (the pre-built template TDUP copies) as a
/// list of [`TableEntry`].
pub fn table_const_to_entries(table: &TableConst) -> (entries: Vec<TableEntry>)
    ensures
        ast::entries_v(entries@) == table_entries(table@),
{
    let mut entries: Vec<TableEntry> = Vec::new();
    let ghost array = array_part(table@.array);
    let ghost array_v = Seq::new(array.len(), |i: int| TableEntryV::Array(ktabk_expr(array[i])));
    // Array part: skip the leading Nil sentinel if present.
    let from: usize = skip_leading_nil_sentinel(&table.array);
    let mut i: usize = from;
    assert(ast::entries_v(entries@) =~= array_v.take(0));
    while i < table.array.len()
        invariant
            from <= i <= table.array@.len(),
            array == table@.array.skip(from as int),
            array_v == Seq::new(array.len(), |k: int| TableEntryV::Array(ktabk_expr(array[k]))),
            ast::entries_v(entries@) == array_v.take(i - from),
        decreases table.array@.len() - i,
    {
        let entry = TableEntry::Array(ktabk_to_expr(&table.array[i]));
        proof {
            ast::lemma_entries_push(entries@, entry);
            assert(array[i - from] == table.array@[i as int]@);
            assert(array_v.take(i - from + 1) =~= array_v.take(i - from).push(entry@));
        }
        entries.push(entry);
        i = i + 1;
    }
    assert(array_v.take(i - from) =~= array_v);
    // Hash part: string keys and other keys, each sorted as it is
    // collected.
    let ghost hash = table@.hash;
    let mut strings: Vec<Keyed> = Vec::new();
    let mut others: Vec<Keyed> = Vec::new();
    let mut j: usize = 0;
    proof {
        assert(text::views(strings@) =~= seq![]);
        assert(text::views(others@) =~= seq![]);
        assert(hash.take(0) =~= seq![]);
    }
    while j < table.hash.len()
        invariant
            j <= table.hash@.len(),
            hash == table@.hash,
            text::views(strings@) == sorted(string_entries(hash.take(j as int))),
            text::views(others@) == sorted(other_entries(hash.take(j as int))),
        decreases table.hash@.len() - j,
    {
        let (key, val) = &table.hash[j];
        proof {
            let next = hash.take(j + 1);
            assert(next.drop_last() =~= hash.take(j as int));
            assert(next.last() == table.hash@[j as int]@);
            let strs = string_entries(hash.take(j as int));
            let rest = other_entries(hash.take(j as int));
            if key@ is Str {
                let item = string_entries(next).last();
                assert(strs.push(item).drop_last() =~= strs);
                assert(string_entries(next) =~= strs.push(item));
            } else {
                let item = other_entries(next).last();
                assert(rest.push(item).drop_last() =~= rest);
                assert(other_entries(next) =~= rest.push(item));
            }
        }
        match key {
            KtabK::Str(bytes) => {
                let name = text::decode_lossy(bytes.as_slice());
                let item = Keyed {
                    key: name.clone(),
                    entry: TableEntry::HashStr(name, ktabk_to_expr(val)),
                };
                insert_sorted(&mut strings, item);
            },
            _ => {
                let item = Keyed {
                    key: format_key_for_sort(key),
                    entry: TableEntry::HashExpr(ktabk_to_expr(key), ktabk_to_expr(val)),
                };
                insert_sorted(&mut others, item);
            },
        }
        j = j + 1;
    }
    assert(hash.take(j as int) =~= hash);
    append_bare(&mut entries, strings);
    append_bare(&mut entries, others);
    assert(ast::entries_v(entries@) =~= table_entries(table@));
    entries
}

} // verus!
