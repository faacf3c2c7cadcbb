//! Doubles as bit patterns, and LuaJIT-compatible number formatting.
//!
//! A double is held as its IEEE-754 bit pattern. Every finite double is
//! exactly a decimal fraction, `numerator / 10^places`, so both formats
//! needed here are stated, and computed, on whole numbers: LuaJIT's
//! `%.14g` ([`format_lua_number`]) and a fixed six-place form
//! ([`format_fixed6`]).

use vstd::prelude::*;
use vstd::string::StringExecFns;

use crate::text;

verus! {

/// The bit pattern of positive infinity: all exponent bits set, no
/// fraction.
pub const INFINITY_BITS: u64 = 0x7ff0_0000_0000_0000;

/// A bit pattern without its sign bit.
pub open spec fn magnitude(bits: u64) -> u64 {
    (bits % 0x8000_0000_0000_0000) as u64
}

/// Whether the sign bit is set.
pub open spec fn negative(bits: u64) -> bool {
    bits >= 0x8000_0000_0000_0000
}

/// Whether a bit pattern is not a number.
pub open spec fn nan(bits: u64) -> bool {
    magnitude(bits) > INFINITY_BITS
}

/// Whether a bit pattern is one of the two infinities.
pub open spec fn infinite(bits: u64) -> bool {
    magnitude(bits) == INFINITY_BITS
}

/// Equality of doubles: a NaN equals nothing, and the two zeros are
/// equal.
pub open spec fn float_same(a: u64, b: u64) -> bool {
    !nan(a) && !nan(b) && (a == b || (magnitude(a) == 0 && magnitude(b) == 0))
}

/// The whole significand of a finite double.
pub open spec fn significand(bits: u64) -> nat {
    let fraction = (magnitude(bits) % 0x10_0000_0000_0000) as nat;
    if magnitude(bits) < 0x10_0000_0000_0000 {
        fraction
    } else {
        fraction + 0x10_0000_0000_0000
    }
}

/// The power of two that goes with the whole significand.
pub open spec fn exponent(bits: u64) -> int {
    if magnitude(bits) < 0x10_0000_0000_0000 {
        -1074
    } else {
        magnitude(bits) / 0x10_0000_0000_0000 - 1075
    }
}

/// `base` to the power `n`.
pub open spec fn power(base: nat, n: nat) -> nat
    decreases n,
{
    if n == 0 {
        1
    } else {
        base * power(base, (n - 1) as nat)
    }
}

/// A finite double's magnitude is `numerator / 10^places`: the
/// significand times a power of two, or, for a negative exponent, times
/// as many fives over tens.
pub open spec fn numerator(bits: u64) -> nat {
    if exponent(bits) >= 0 {
        significand(bits) * power(2, exponent(bits) as nat)
    } else {
        significand(bits) * power(5, (-exponent(bits)) as nat)
    }
}

/// How many decimal places a finite double has.
pub open spec fn places(bits: u64) -> nat {
    if exponent(bits) >= 0 {
        0
    } else {
        (-exponent(bits)) as nat
    }
}

/// `n / d` rounded to a whole number, halves to even.
pub open spec fn half_even(n: nat, d: nat) -> nat {
    let q = n / d;
    let r = n % d;
    if 2 * r < d || (2 * r == d && q % 2 == 0) {
        q
    } else {
        q + 1
    }
}

/// How many decimal digits a number has.
pub open spec fn digit_count(n: nat) -> nat
    decreases n,
{
    if n < 10 {
        1
    } else {
        1 + digit_count(n / 10)
    }
}

/// A number without its trailing decimal zeros.
pub open spec fn stripped(n: nat) -> nat
    decreases n,
{
    if n > 0 && n % 10 == 0 {
        stripped(n / 10)
    } else {
        n
    }
}

// ---- The %.14g format ------------------------------------------------------

/// How many low digits 14 significant digits leave out.
pub open spec fn dropped(n: nat) -> nat {
    if digit_count(n) > 14 {
        (digit_count(n) - 14) as nat
    } else {
        0
    }
}

/// A number rounded to 14 significant digits, in units of the last
/// digit kept.
pub open spec fn rounded14(n: nat) -> nat {
    half_even(n, power(10, dropped(n)))
}

/// The decimal exponent of a double rounded to 14 significant digits.
pub open spec fn decimal_exponent(bits: u64) -> int {
    digit_count(rounded14(numerator(bits))) - 1 + dropped(numerator(bits)) - places(bits)
}

/// Significant digits `d`, the first standing for `10^exp`, in plain
/// decimal form.
pub open spec fn plain(d: Seq<char>, exp: int) -> Seq<char> {
    if exp < 0 {
        "0."@ + text::times('0', (-exp - 1) as nat) + d
    } else if d.len() > exp + 1 {
        d.take(exp + 1) + seq!['.'] + d.skip(exp + 1)
    } else {
        d + text::times('0', (exp + 1 - d.len()) as nat)
    }
}

/// The exponent of the scientific form: explicit sign, at least two
/// digits.
pub open spec fn exponent_suffix(exp: int) -> Seq<char> {
    if exp < 0 {
        "e-"@ + text::zero_padded(text::decimal((-exp) as nat), 2)
    } else {
        "e+"@ + text::zero_padded(text::decimal(exp as nat), 2)
    }
}

/// Significant digits `d`, the first standing for `10^exp`, in
/// scientific form.
pub open spec fn scientific(d: Seq<char>, exp: int) -> Seq<char> {
    (if d.len() > 1 {
        d.take(1) + seq!['.'] + d.skip(1)
    } else {
        d
    }) + exponent_suffix(exp)
}

/// Digits and exponent in the form that `%g` picks for the exponent.
pub open spec fn general(d: Seq<char>, exp: int) -> Seq<char> {
    if -4 <= exp < 14 {
        plain(d, exp)
    } else {
        scientific(d, exp)
    }
}

/// The sign in front of a number.
pub open spec fn sign(bits: u64) -> Seq<char> {
    if negative(bits) {
        seq!['-']
    } else {
        seq![]
    }
}

/// A double the way LuaJIT's `tostring` prints it.
pub open spec fn lua_number(bits: u64) -> Seq<char> {
    if nan(bits) {
        "nan"@
    } else if infinite(bits) {
        sign(bits) + "inf"@
    } else if magnitude(bits) == 0 {
        sign(bits) + "0"@
    } else {
        sign(bits) + general(
            text::decimal(stripped(rounded14(numerator(bits)))),
            decimal_exponent(bits),
        )
    }
}

// ---- The fixed six-place format -----------------------------------------------

/// A finite double's magnitude in millionths, rounded.
pub open spec fn millionths(bits: u64) -> nat {
    if places(bits) <= 6 {
        numerator(bits) * power(10, (6 - places(bits)) as nat)
    } else {
        half_even(numerator(bits), power(10, (places(bits) - 6) as nat))
    }
}

/// The magnitude of a double with six decimal places.
pub open spec fn fixed6(bits: u64) -> Seq<char> {
    if nan(bits) {
        "NaN"@
    } else if infinite(bits) {
        "inf"@
    } else {
        text::decimal(millionths(bits) / 1_000_000) + seq!['.'] + text::zero_padded(
            text::decimal(millionths(bits) % 1_000_000),
            6,
        )
    }
}

// ---- Digit strings -------------------------------------------------------------

/// The number that decimal digits stand for, least significant first.
pub open spec fn digits_value(v: Seq<u8>) -> nat
    decreases v.len(),
{
    if v.len() == 0 {
        0
    } else {
        v[0] as nat + 10 * digits_value(v.drop_first())
    }
}

/// Whether all entries are decimal digits.
pub open spec fn digits(v: Seq<u8>) -> bool {
    forall|i: int| 0 <= i < v.len() ==> #[trigger] v[i] < 10
}

/// Digits without leading zeros: the last entry is not zero.
pub open spec fn numeral(v: Seq<u8>) -> bool {
    digits(v) && (v.len() > 0 ==> v.last() > 0)
}

proof fn lemma_power_add(base: nat, a: nat, b: nat)
    ensures
        power(base, a + b) == power(base, a) * power(base, b),
    decreases a,
{
    if a == 0 {
        assert(power(base, 0) == 1);
        assert(1 * power(base, b) == power(base, b)) by (nonlinear_arith);
    } else {
        lemma_power_add(base, (a - 1) as nat, b);
        let p = power(base, (a - 1) as nat);
        let q = power(base, b);
        assert((a - 1) as nat + b == (a + b - 1) as nat);
        assert(base * (p * q) == (base * p) * q) by (nonlinear_arith);
    }
}

proof fn lemma_power10_positive(n: nat)
    ensures
        power(10, n) > 0,
    decreases n,
{
    if n > 0 {
        lemma_power10_positive((n - 1) as nat);
    }
}

/// Digits behind others weigh more by the length of the others.
proof fn lemma_digits_split(v: Seq<u8>, n: int)
    requires
        0 <= n <= v.len(),
    ensures
        digits_value(v) == digits_value(v.take(n)) + power(10, n as nat) * digits_value(v.skip(n)),
    decreases n,
{
    if n == 0 {
        assert(v.skip(0) =~= v);
        assert(v.take(0) =~= seq![]);
        assert(power(10, 0) == 1);
        assert(1 * digits_value(v) == digits_value(v)) by (nonlinear_arith);
    } else {
        let rest = v.drop_first();
        lemma_digits_split(rest, n - 1);
        assert(v.take(n).drop_first() =~= rest.take(n - 1));
        assert(v.skip(n) =~= rest.skip(n - 1));
        assert(v.take(n)[0] == v[0]);
        let p = power(10, (n - 1) as nat);
        let h = digits_value(v.skip(n));
        assert(10 * (p * h) == (10 * p) * h) by (nonlinear_arith);
        assert(power(10, n as nat) == 10 * p);
    }
}

/// A digit string stands for less than ten to its length.
proof fn lemma_digits_bound(v: Seq<u8>)
    requires
        digits(v),
    ensures
        digits_value(v) < power(10, v.len()),
    decreases v.len(),
{
    if v.len() > 0 {
        assert forall|i: int| 0 <= i < v.drop_first().len() implies #[trigger] v.drop_first()[i]
            < 10 by {
            assert(v.drop_first()[i] == v[i + 1]);
        }
        lemma_digits_bound(v.drop_first());
    }
}

/// One digit more at the top.
proof fn lemma_digits_push(v: Seq<u8>, d: u8)
    ensures
        digits_value(v.push(d)) == digits_value(v) + power(10, v.len()) * d,
{
    let w = v.push(d);
    lemma_digits_split(w, v.len() as int);
    assert(w.take(v.len() as int) =~= v);
    assert(w.skip(v.len() as int) =~= seq![d]);
    assert(seq![d].drop_first() =~= Seq::<u8>::empty());
    assert(digits_value(seq![d]) == d) by {
        reveal_with_fuel(digits_value, 2);
    }
}

/// A numeral has as many digits as its number.
proof fn lemma_numeral_count(v: Seq<u8>)
    requires
        numeral(v),
        v.len() > 0,
    ensures
        digit_count(digits_value(v)) == v.len(),
        digits_value(v) > 0,
    decreases v.len(),
{
    let rest = v.drop_first();
    if rest.len() == 0 {
        assert(digits_value(rest) == 0);
        assert(v[0] == v.last());
    } else {
        assert(numeral(rest)) by {
            assert forall|i: int| 0 <= i < rest.len() implies #[trigger] rest[i] < 10 by {
                assert(rest[i] == v[i + 1]);
            }
            assert(rest.last() == v.last());
        }
        lemma_numeral_count(rest);
        assert(v[0] < 10);
        assert((v[0] as nat + 10 * digits_value(rest)) / 10 == digits_value(rest));
    }
}

/// The decimal text of a numeral is its digits, top digit first.
proof fn lemma_numeral_text(v: Seq<u8>)
    requires
        numeral(v),
        v.len() > 0,
    ensures
        text::decimal(digits_value(v)) == Seq::new(
            v.len(),
            |i: int| text::digit_char(v[v.len() - 1 - i] as int),
        ),
    decreases v.len(),
{
    let rest = v.drop_first();
    let whole = Seq::new(v.len(), |i: int| text::digit_char(v[v.len() - 1 - i] as int));
    if rest.len() == 0 {
        assert(digits_value(rest) == 0);
        assert(v[0] < 10);
        assert(text::decimal(digits_value(v)) =~= whole);
    } else {
        assert(numeral(rest)) by {
            assert forall|i: int| 0 <= i < rest.len() implies #[trigger] rest[i] < 10 by {
                assert(rest[i] == v[i + 1]);
            }
            assert(rest.last() == v.last());
        }
        lemma_numeral_text(rest);
        lemma_numeral_count(rest);
        assert(v[0] < 10);
        let n = digits_value(v);
        assert(n / 10 == digits_value(rest));
        assert(n % 10 == v[0]);
        assert(n >= 10);
        assert(text::decimal(n) =~= whole);
    }
}

/// Whether two doubles are equal.
pub fn floats_equal(a: u64, b: u64) -> (r: bool)
    ensures
        r == float_same(a, b),
{
    let ma: u64 = a % 0x8000_0000_0000_0000;
    let mb: u64 = b % 0x8000_0000_0000_0000;
    ma <= INFINITY_BITS && mb <= INFINITY_BITS && (a == b || (ma == 0 && mb == 0))
}

/// The digits of a number.
fn digits_of(n: u64) -> (v: Vec<u8>)
    ensures
        numeral(v@),
        digits_value(v@) == n,
        v@.len() <= 20,
{
    let mut v: Vec<u8> = Vec::new();
    let mut rest: u64 = n;
    let ghost mut scale: nat = 1;
    proof {
        assert(power(10, 0) == 1);
        reveal_with_fuel(power, 21);
    }
    while rest > 0
        invariant
            v@.len() <= 20,
            rest < power(10, (20 - v@.len()) as nat),
            digits(v@),
            rest == 0 && v@.len() > 0 ==> v@.last() > 0,
            scale == power(10, v@.len()),
            digits_value(v@) + scale * rest == n,
        decreases rest,
    {
        let d: u8 = (rest % 10) as u8;
        let ghost high: u64 = rest / 10;
        proof {
            assert(power(10, 0) == 1);
            assert(v@.len() < 20);
            lemma_digits_push(v@, d);
            assert(scale * rest == scale * d + (10 * scale) * high) by (nonlinear_arith)
                requires
                    rest == d + 10 * high,
            ;
            scale = 10 * scale;
        }
        v.push(d);
        rest = rest / 10;
    }
    assert(scale * 0 == 0);
    v
}

/// Multiplies a digit string by a small factor.
fn multiply(v: &mut Vec<u8>, by: u8)
    requires
        numeral(old(v)@),
        1 <= by <= 9,
    ensures
        numeral(final(v)@),
        digits_value(final(v)@) == by * digits_value(old(v)@),
        final(v)@.len() <= old(v)@.len() + 1,
{
    let ghost before = v@;
    let n: usize = v.len();
    let mut carry: u8 = 0;
    let mut i: usize = 0;
    proof {
        assert(before.take(0) =~= seq![]);
        assert(v@.take(0) =~= seq![]);
        assert(power(10, 0) == 1);
        assert(by * 0nat == 0) by (nonlinear_arith);
    }
    while i < n
        invariant
            n == before.len(),
            v@.len() == n,
            i <= n,
            1 <= by <= 9,
            carry < 9,
            digits(before),
            digits(v@),
            forall|k: int| i <= k < n ==> v@[k] == before[k],
            digits_value(v@.take(i as int)) + power(10, i as nat) * carry == by * digits_value(
                before.take(i as int),
            ),
            i > 0 && i == n && before.last() > 0 ==> carry > 0 || v@.last() > 0,
        decreases n - i,
    {
        let ghost prefix = v@.take(i as int);
        let ghost p = power(10, i as nat);
        let ghost low = digits_value(before.take(i as int));
        let ghost carry_in = carry;
        let digit: u8 = v[i];
        assert(digit < 10);
        assert(digit as int * by as int <= 81) by (nonlinear_arith)
            requires
                digit < 10,
                by <= 9,
        ;
        let product: u8 = digit * by + carry;
        proof {
            assert(digit > 0 ==> digit as int * by as int >= 1) by (nonlinear_arith)
                requires
                    by >= 1,
            ;
        }
        v.set(i, product % 10);
        carry = product / 10;
        proof {
            assert(before.take(i + 1) =~= before.take(i as int).push(digit));
            lemma_digits_push(before.take(i as int), digit);
            assert(v@.take(i + 1) =~= prefix.push((product % 10) as u8));
            lemma_digits_push(prefix, (product % 10) as u8);
            let out: nat = (product % 10) as nat;
            let carry_out: nat = carry as nat;
            assert(power(10, (i + 1) as nat) == 10 * p);
            let value = digits_value(prefix);
            assert(value + p * out + (10 * p) * carry_out == by * (low + p * digit))
                by (nonlinear_arith)
                requires
                    value + p * carry_in == by * low,
                    out + 10 * carry_out == digit * by + carry_in,
            ;
        }
        i = i + 1;
    }
    proof {
        assert(v@.take(n as int) =~= v@);
        assert(before.take(n as int) =~= before);
        lemma_digits_push(v@, carry);
        assert(power(10, n as nat) * 0 == 0) by (nonlinear_arith);
    }
    if carry > 0 {
        v.push(carry);
    }
}

/// Multiplies a digit string by a small factor, `times` times.
fn multiply_repeatedly(v: &mut Vec<u8>, by: u8, times: u32)
    requires
        numeral(old(v)@),
        1 <= by <= 9,
    ensures
        numeral(final(v)@),
        digits_value(final(v)@) == digits_value(old(v)@) * power(by as nat, times as nat),
        final(v)@.len() <= old(v)@.len() + times,
{
    let ghost start = digits_value(v@);
    let mut i: u32 = 0;
    proof {
        assert(start * 1 == start) by (nonlinear_arith);
    }
    while i < times
        invariant
            i <= times,
            1 <= by <= 9,
            numeral(v@),
            v@.len() <= old(v)@.len() + i,
            digits_value(v@) == start * power(by as nat, i as nat),
        decreases times - i,
    {
        multiply(v, by);
        proof {
            let p = power(by as nat, i as nat);
            assert(by * (start * p) == start * (by * p)) by (nonlinear_arith);
            assert(power(by as nat, (i + 1) as nat) == by * p);
        }
        i = i + 1;
    }
}

/// Adds one to a digit string.
fn increment(v: &mut Vec<u8>)
    requires
        numeral(old(v)@),
    ensures
        numeral(final(v)@),
        digits_value(final(v)@) == digits_value(old(v)@) + 1,
        final(v)@.len() <= old(v)@.len() + 1,
{
    let ghost before = v@;
    let n: usize = v.len();
    let mut i: usize = 0;
    proof {
        assert(before.take(0) =~= seq![]);
        assert(power(10, 0) == 1);
    }
    while i < n && v[i] == 9
        invariant
            n == before.len(),
            v@.len() == n,
            i <= n,
            numeral(before),
            digits(v@),
            forall|k: int| i <= k < n ==> v@[k] == before[k],
            digits_value(v@.take(i as int)) + power(10, i as nat) == digits_value(
                before.take(i as int),
            ) + 1,
        decreases n - i,
    {
        let ghost prefix = v@.take(i as int);
        let ghost low = before.take(i as int);
        v.set(i, 0);
        proof {
            assert(v@.take(i + 1) =~= prefix.push(0u8));
            lemma_digits_push(prefix, 0u8);
            assert(before.take(i + 1) =~= low.push(9u8));
            lemma_digits_push(low, 9u8);
            assert(power(10, (i + 1) as nat) == 10 * power(10, i as nat));
        }
        i = i + 1;
    }
    if i < n {
        let ghost carried = v@;
        let d: u8 = v[i];
        v.set(i, d + 1);
        proof {
            lemma_digits_split(before, i as int);
            lemma_digits_split(v@, i as int);
            assert(v@.take(i as int) =~= carried.take(i as int));
            let high_before = before.skip(i as int);
            let high = v@.skip(i as int);
            assert(high.drop_first() =~= high_before.drop_first());
            let p = power(10, i as nat);
            let rest = digits_value(high.drop_first());
            assert(p * ((d + 1) as nat + 10 * rest) == p * (d as nat + 10 * rest) + p)
                by (nonlinear_arith);
            if i == n - 1 {
                assert(v@.last() == d + 1);
            } else {
                assert(v@.last() == before.last());
            }
        }
    } else {
        proof {
            assert(v@.take(n as int) =~= v@);
            assert(before.take(n as int) =~= before);
            lemma_digits_push(v@, 1u8);
        }
        v.push(1);
    }
}

/// Whether all digits below `n` are zero.
fn all_zero_below(v: &Vec<u8>, n: usize) -> (zero: bool)
    requires
        n <= v@.len(),
        digits(v@),
    ensures
        zero == (digits_value(v@.take(n as int)) == 0),
{
    let mut i: usize = 0;
    proof {
        assert(v@.take(0) =~= seq![]);
    }
    while i < n
        invariant
            i <= n <= v@.len(),
            digits_value(v@.take(i as int)) == 0,
        decreases n - i,
    {
        proof {
            assert(v@.take(i + 1) =~= v@.take(i as int).push(v@[i as int]));
            lemma_digits_push(v@.take(i as int), v@[i as int]);
            lemma_power10_positive(i as nat);
        }
        if v[i] != 0 {
            proof {
                lemma_digits_split(v@.take(n as int), i + 1);
                assert(v@.take(n as int).take(i + 1) =~= v@.take(i + 1));
                let p = power(10, i as nat);
                let d = v@[i as int];
                assert(p * d > 0) by (nonlinear_arith)
                    requires
                        p > 0,
                        d > 0,
                ;
                let q = power(10, (i + 1) as nat);
                let h = digits_value(v@.take(n as int).skip(i + 1));
                assert(q * h >= 0) by (nonlinear_arith);
            }
            return false;
        }
        proof {
            assert(power(10, i as nat) * 0 == 0) by (nonlinear_arith);
        }
        i = i + 1;
    }
    true
}

/// Drops the `n` lowest digits, rounding halves to even.
fn round_off(v: &Vec<u8>, n: usize) -> (out: Vec<u8>)
    requires
        numeral(v@),
    ensures
        numeral(out@),
        digits_value(out@) == half_even(digits_value(v@), power(10, n as nat)),
        out@.len() <= v@.len() + 1,
{
    let ghost whole = digits_value(v@);
    let ghost unit = power(10, n as nat);
    proof {
        lemma_power10_positive(n as nat);
        lemma_digits_bound(v@);
    }
    if n == 0 {
        let out = copy_digits(v, 0);
        proof {
            assert(v@.skip(0) =~= v@);
            assert(whole / 1 == whole && whole % 1 == 0);
        }
        return out;
    }
    if n > v.len() {
        // Fewer digits than are dropped: less than a tenth.
        let out: Vec<u8> = Vec::new();
        proof {
            lemma_power_add(10, v@.len(), (n - v@.len()) as nat);
            lemma_power_at_least(10, (n - v@.len()) as nat);
            let p = power(10, v@.len());
            let q = power(10, (n - v@.len()) as nat);
            assert(p * q >= 10 * p) by (nonlinear_arith)
                requires
                    q >= 10,
            ;
            assert(whole / unit == 0) by (nonlinear_arith)
                requires
                    0 <= whole < unit,
            ;
            assert(whole % unit == whole) by (nonlinear_arith)
                requires
                    0 <= whole < unit,
            ;
            assert(out@ =~= seq![]);
        }
        return out;
    }
    let mut out = copy_digits(v, n);
    let ghost q = digits_value(out@);
    let ghost r = digits_value(v@.take(n as int));
    let half_digit: u8 = v[n - 1];
    let rest_zero: bool = all_zero_below(v, n - 1);
    proof {
        lemma_digits_split(v@, n as int);
        assert(digits(v@.take(n as int))) by {
            assert forall|i: int| 0 <= i < v@.take(n as int).len() implies #[trigger] v@.take(
                n as int,
            )[i] < 10 by {
                assert(v@.take(n as int)[i] == v@[i]);
            }
        }
        lemma_digits_bound(v@.take(n as int));
        assert(whole == r + unit * q);
        assert(whole / unit == q && whole % unit == r) by (nonlinear_arith)
            requires
                whole == r + unit * q,
                0 <= r < unit,
        ;
        // r = low + tenth * half_digit, with unit = 10 * tenth.
        let tenth = power(10, (n - 1) as nat);
        let low = digits_value(v@.take(n - 1));
        assert(v@.take(n as int) =~= v@.take(n - 1).push(half_digit));
        lemma_digits_push(v@.take(n - 1), half_digit);
        assert(digits(v@.take(n - 1))) by {
            assert forall|i: int| 0 <= i < v@.take(n - 1).len() implies #[trigger] v@.take(n - 1)[i]
                < 10 by {
                assert(v@.take(n - 1)[i] == v@[i]);
            }
        }
        lemma_digits_bound(v@.take(n - 1));
        lemma_power10_positive((n - 1) as nat);
        assert(unit == 10 * tenth);
        assert(r == low + tenth * half_digit);
        if half_digit > 5 {
            assert(2 * (low + tenth * half_digit) > 10 * tenth) by (nonlinear_arith)
                requires
                    half_digit > 5,
                    tenth > 0,
                    low >= 0,
            ;
        } else if half_digit < 5 {
            assert(2 * (low + tenth * half_digit) < 10 * tenth) by (nonlinear_arith)
                requires
                    half_digit < 5,
                    0 <= low < tenth,
            ;
        } else {
            assert(2 * (low + tenth * 5) == 10 * tenth + 2 * low);
        }
        // The parity of q is that of its lowest digit.
        if out@.len() > 0 {
            assert(q == out@[0] as nat + 10 * digits_value(out@.drop_first()));
            assert(q % 2 == (out@[0] as nat) % 2);
        }
    }
    let odd: bool = out.len() > 0 && out[0] % 2 == 1;
    if half_digit > 5 || (half_digit == 5 && (!rest_zero || odd)) {
        increment(&mut out);
    }
    out
}

proof fn lemma_power_at_least(base: nat, n: nat)
    requires
        n > 0,
        base > 0,
    ensures
        power(base, n) >= base,
    decreases n,
{
    if n == 1 {
        assert(power(base, 0) == 1);
        assert(base * 1 == base) by (nonlinear_arith);
    } else {
        lemma_power_at_least(base, (n - 1) as nat);
        let p = power(base, (n - 1) as nat);
        assert(base * p >= base) by (nonlinear_arith)
            requires
                p >= base,
                base > 0,
        ;
    }
}

/// The digits from the `from`-th on.
fn copy_digits(v: &Vec<u8>, from: usize) -> (out: Vec<u8>)
    requires
        numeral(v@),
        from <= v@.len(),
    ensures
        out@ == v@.skip(from as int),
        numeral(out@),
{
    let mut out: Vec<u8> = Vec::new();
    let mut i: usize = from;
    while i < v.len()
        invariant
            from <= i <= v@.len(),
            out@ == v@.subrange(from as int, i as int),
        decreases v@.len() - i,
    {
        out.push(v[i]);
        i = i + 1;
        assert(out@ =~= v@.subrange(from as int, i as int));
    }
    assert(out@ =~= v@.skip(from as int));
    out
}

/// The characters of a digit string, top digit first.
pub open spec fn shown(v: Seq<u8>) -> Seq<char> {
    Seq::new(v.len(), |i: int| text::digit_char(v[v.len() - 1 - i] as int))
}

/// A numeral stands for at least ten to one less than its length.
proof fn lemma_numeral_at_least(v: Seq<u8>)
    requires
        numeral(v),
        v.len() > 0,
    ensures
        digits_value(v) >= power(10, (v.len() - 1) as nat),
{
    let n = v.len() - 1;
    assert(v.take(n).push(v.last()) =~= v);
    lemma_digits_push(v.take(n), v.last());
    let p = power(10, n as nat);
    let d = v.last();
    assert(p * d >= p) by (nonlinear_arith)
        requires
            d >= 1,
    ;
}

/// Rounding off fewer digits than there are leaves something.
proof fn lemma_rounded_positive(v: Seq<u8>, n: nat)
    requires
        numeral(v),
        n < v.len(),
    ensures
        half_even(digits_value(v), power(10, n)) > 0,
{
    lemma_numeral_at_least(v);
    lemma_power10_positive(n);
    lemma_power_add(10, n, (v.len() - 1 - n) as nat);
    lemma_power10_positive((v.len() - 1 - n) as nat);
    let p = power(10, n);
    let q = power(10, (v.len() - 1 - n) as nat);
    let w = digits_value(v);
    assert(p * q >= p) by (nonlinear_arith)
        requires
            q >= 1,
    ;
    assert(w / p >= 1) by (nonlinear_arith)
        requires
            w >= p,
            p > 0,
    ;
}

/// Splitting a finite double into its whole significand and its power
/// of two.
fn decode(bits: u64) -> (out: (u64, i32))
    requires
        magnitude(bits) < INFINITY_BITS,
    ensures
        out.0 == significand(bits),
        out.1 == exponent(bits),
        -1074 <= out.1 <= 971,
        magnitude(bits) > 0 ==> out.0 > 0,
{
    let mag: u64 = bits % 0x8000_0000_0000_0000;
    let fraction: u64 = mag % 0x10_0000_0000_0000;
    if mag < 0x10_0000_0000_0000 {
        (fraction, -1074)
    } else {
        (fraction + 0x10_0000_0000_0000, (mag / 0x10_0000_0000_0000) as i32 - 1075)
    }
}

/// The digits of a finite double's numerator, and its decimal places.
fn decimal_digits(bits: u64) -> (out: (Vec<u8>, u32))
    requires
        magnitude(bits) < INFINITY_BITS,
    ensures
        numeral(out.0@),
        digits_value(out.0@) == numerator(bits),
        magnitude(bits) > 0 ==> out.0@.len() > 0,
        out.0@.len() <= 1094,
        out.1 == places(bits),
        out.1 <= 1074,
{
    let (m, e) = decode(bits);
    let mut v = digits_of(m);
    let k: u32 = if e >= 0 {
        0
    } else {
        (-e) as u32
    };
    if e >= 0 {
        multiply_repeatedly(&mut v, 2, e as u32);
    } else {
        multiply_repeatedly(&mut v, 5, k);
    }
    proof {
        if magnitude(bits) > 0 && v@.len() == 0 {
            let f = if e >= 0 {
                power(2, e as nat)
            } else {
                power(5, k as nat)
            };
            if e >= 0 {
                lemma_power_positive(2, e as nat);
            } else {
                lemma_power_positive(5, k as nat);
            }
            assert(m * f > 0) by (nonlinear_arith)
                requires
                    m > 0,
                    f > 0,
            ;
            assert(digits_value(v@) == 0);
        }
    }
    (v, k)
}

proof fn lemma_power_positive(base: nat, n: nat)
    requires
        base > 0,
    ensures
        power(base, n) > 0,
    decreases n,
{
    if n > 0 {
        lemma_power_positive(base, (n - 1) as nat);
        let p = power(base, (n - 1) as nat);
        assert(base * p > 0) by (nonlinear_arith)
            requires
                base > 0,
                p > 0,
        ;
    }
}

/// Drops the trailing decimal zeros of a number.
fn strip_zeros(v: &Vec<u8>) -> (out: Vec<u8>)
    requires
        numeral(v@),
        v@.len() > 0,
    ensures
        numeral(out@),
        out@.len() > 0,
        digits_value(out@) == stripped(digits_value(v@)),
{
    let mut z: usize = 0;
    proof {
        assert(v@.skip(0) =~= v@);
    }
    while v[z] == 0
        invariant
            numeral(v@),
            z < v.len(),
            stripped(digits_value(v@.skip(z as int))) == stripped(digits_value(v@)),
        decreases v@.len() - z,
    {
        proof {
            let rest = v@.skip(z as int);
            assert(z + 1 < v@.len()) by {
                if z == v@.len() - 1 {
                    assert(v@.last() == 0);
                }
            }
            assert(rest.drop_first() =~= v@.skip(z + 1));
            assert(numeral(rest)) by {
                assert forall|i: int| 0 <= i < rest.len() implies #[trigger] rest[i] < 10 by {
                    assert(rest[i] == v@[z + i]);
                }
                assert(rest.last() == v@.last());
            }
            lemma_numeral_count(rest);
            assert(digits_value(rest) == 10 * digits_value(v@.skip(z + 1)));
        }
        z = z + 1;
    }
    let out = copy_digits(v, z);
    proof {
        assert(out@[0] == v@[z as int]);
        assert(digits_value(out@) == out@[0] as nat + 10 * digits_value(out@.drop_first()));
        assert(out@[0] < 10);
    }
    out
}

/// Appends the characters `from` to `to` of a digit string, counted
/// from the top digit.
fn push_shown(out: &mut String, v: &Vec<u8>, from: usize, to: usize)
    requires
        digits(v@),
        from <= to <= v@.len(),
    ensures
        final(out)@ == old(out)@ + shown(v@).subrange(from as int, to as int),
{
    let mut i: usize = from;
    assert(out@ =~= old(out)@ + shown(v@).subrange(from as int, i as int));
    while i < to
        invariant
            digits(v@),
            from <= i <= to <= v@.len(),
            out@ == old(out)@ + shown(v@).subrange(from as int, i as int),
        decreases to - i,
    {
        text::push_digit(out, v[v.len() - 1 - i]);
        i = i + 1;
        assert(out@ =~= old(out)@ + shown(v@).subrange(from as int, i as int));
    }
}

/// Appends significant digits and their decimal exponent in plain
/// decimal form.
fn reformat_decimal(out: &mut String, d: &Vec<u8>, exp: i32)
    requires
        digits(d@),
        -4 <= exp < 14,
    ensures
        final(out)@ == old(out)@ + plain(shown(d@), exp as int),
{
    let ghost s = shown(d@);
    let n: usize = d.len();
    if exp < 0 {
        // Fractional: "0." + (-exp - 1) zeros + the digits.
        out.append("0.");
        text::push_zeros(out, (-exp - 1) as usize);
        push_shown(out, d, 0, n);
        assert(s.subrange(0, n as int) =~= s);
        assert(out@ =~= old(out)@ + plain(s, exp as int));
        return;
    }
    let int_len: usize = exp as usize + 1;
    if n > int_len {
        push_shown(out, d, 0, int_len);
        out.push('.');
        push_shown(out, d, int_len, n);
        assert(s.take(int_len as int) =~= s.subrange(0, int_len as int));
        assert(s.skip(int_len as int) =~= s.subrange(int_len as int, n as int));
        assert(out@ =~= old(out)@ + plain(s, exp as int));
    } else {
        // An integer that may need trailing zeros to reach the right
        // magnitude.
        push_shown(out, d, 0, n);
        text::push_zeros(out, int_len - n);
        assert(s.subrange(0, n as int) =~= s);
        assert(out@ =~= old(out)@ + plain(s, exp as int));
    }
}

/// Appends the scientific exponent: lowercase `e`, explicit sign,
/// zero-padded to a minimum of two digits.
fn format_exponent(out: &mut String, exp: i32)
    requires
        exp > i32::MIN,
    ensures
        final(out)@ == old(out)@ + exponent_suffix(exp as int),
{
    let size: u64 = if exp < 0 {
        (-exp) as u64
    } else {
        exp as u64
    };
    if exp < 0 {
        out.append("e-");
    } else {
        out.append("e+");
    }
    proof {
        lemma_decimal_len(size as nat);
    }
    if size < 10 {
        out.push('0');
    }
    text::push_decimal(out, size);
    assert(out@ =~= old(out)@ + exponent_suffix(exp as int));
}

/// A numeral has one character below ten and more from ten on.
proof fn lemma_decimal_len(n: nat)
    ensures
        n < 10 ==> text::decimal(n).len() == 1,
        n >= 10 ==> text::decimal(n).len() >= 2,
    decreases n,
{
    if n >= 10 {
        lemma_decimal_len(n / 10);
    }
}

// ---- Laws of the formats ---------------------------------------------------------

/// Trailing zeros add to the digits and change nothing else.
proof fn lemma_scaled(n: nat, p: nat)
    requires
        n > 0,
    ensures
        n * power(10, p) > 0,
        digit_count(n * power(10, p)) == digit_count(n) + p,
        stripped(n * power(10, p)) == stripped(n),
    decreases p,
{
    if p == 0 {
        assert(n * 1 == n) by (nonlinear_arith);
    } else {
        let smaller = n * power(10, (p - 1) as nat);
        lemma_scaled(n, (p - 1) as nat);
        let q = power(10, (p - 1) as nat);
        assert(n * (10 * q) == 10 * (n * q)) by (nonlinear_arith);
        assert(n * power(10, p) == 10 * smaller);
        assert((10 * smaller) / 10 == smaller);
    }
}

/// A numeral is that of its stripped number with the zeros behind it.
proof fn lemma_stripped_text(n: nat)
    requires
        n > 0,
    ensures
        stripped(n) > 0,
        digit_count(stripped(n)) <= digit_count(n),
        text::decimal(n).len() == digit_count(n),
        text::decimal(stripped(n)).len() == digit_count(stripped(n)),
        text::decimal(n) == text::decimal(stripped(n)) + text::times(
            '0',
            (digit_count(n) - digit_count(stripped(n))) as nat,
        ),
    decreases n,
{
    lemma_decimal_count(n);
    lemma_decimal_count(stripped(n));
    if n % 10 == 0 {
        lemma_stripped_text(n / 10);
        assert(text::decimal(n) == text::decimal(n / 10).push('0'));
        assert(text::decimal(n) =~= text::decimal(stripped(n)) + text::times(
            '0',
            (digit_count(n) - digit_count(stripped(n))) as nat,
        ));
    } else {
        assert(text::decimal(n) =~= text::decimal(stripped(n)) + text::times('0', 0));
    }
}

proof fn lemma_decimal_count(n: nat)
    ensures
        text::decimal(n).len() == digit_count(n),
    decreases n,
{
    if n >= 10 {
        lemma_decimal_count(n / 10);
    }
}

/// Dividing by a factor rounds nothing off.
proof fn lemma_half_even_exact(q: nat, d: nat)
    requires
        d > 0,
    ensures
        half_even(q * d, d) == q,
{
    assert((q * d) / d == q) by (nonlinear_arith)
        requires
            d > 0,
    ;
    assert((q * d) % d == 0) by (nonlinear_arith)
        requires
            d > 0,
    ;
}

/// A number below `10^n` has at most `n` digits.
proof fn lemma_digit_count_bound(v: nat, n: nat)
    requires
        n > 0,
        v < power(10, n),
    ensures
        1 <= digit_count(v) <= n,
    decreases n,
{
    if v >= 10 {
        if n == 1 {
            assert(power(10, 0) == 1);
            assert(power(10, 1) == 10 * power(10, 0));
        } else {
            assert(power(10, n) == 10 * power(10, (n - 1) as nat));
            lemma_digit_count_bound(v / 10, (n - 1) as nat);
        }
    }
}

/// A double with a whole value of at most fourteen digits prints as that
/// numeral, without a point or an exponent.
pub proof fn law_whole_numbers_print_plainly(bits: u64, v: nat)
    requires
        magnitude(bits) < INFINITY_BITS,
        numerator(bits) == v * power(10, places(bits)),
        0 < v < power(10, 14),
    ensures
        lua_number(bits) == sign(bits) + text::decimal(v),
{
    let p = places(bits);
    lemma_digit_count_bound(v, 14);
    lemma_scaled(v, p);
    let k = dropped(numerator(bits));
    assert(k <= p);
    let kept = v * power(10, (p - k) as nat);
    lemma_power_add(10, (p - k) as nat, k);
    assert((p - k) as nat + k == p);
    let a = power(10, (p - k) as nat);
    let b = power(10, k);
    assert(v * (a * b) == (v * a) * b) by (nonlinear_arith);
    assert(numerator(bits) == kept * power(10, k));
    lemma_power10_positive(k);
    lemma_half_even_exact(kept, power(10, k));
    assert(rounded14(numerator(bits)) == kept);
    lemma_scaled(v, (p - k) as nat);
    assert(decimal_exponent(bits) == digit_count(v) - 1);
    lemma_stripped_text(v);
    if magnitude(bits) == 0 {
        assert(significand(bits) == 0);
        let e = power(5, (-exponent(bits)) as nat);
        assert(0 * e == 0) by (nonlinear_arith);
        assert(numerator(bits) == 0);
        assert(false);
    }
    let d = text::decimal(stripped(v));
    assert(plain(d, digit_count(v) - 1) =~= text::decimal(v)) by {
        if d.len() == digit_count(v) {
            assert(text::times('0', 0) =~= Seq::<char>::empty());
        }
    }
}

/// Rounding goes to the nearest whole number, and from the middle between
/// two to the even one.
pub proof fn law_rounding_goes_to_the_nearest(n: nat, d: nat)
    requires
        d > 0,
    ensures
        ({
            let r = half_even(n, d) * d;
            &&& 2 * n - d <= 2 * r <= 2 * n + d
            &&& (2 * r == 2 * n - d || 2 * r == 2 * n + d) ==> half_even(n, d) % 2 == 0
        }),
{
    let q = n / d;
    let r = n % d;
    assert(n == q * d + r && r < d) by (nonlinear_arith)
        requires
            d > 0,
            q == n / d,
            r == n % d,
    ;
    assert((q + 1) * d == q * d + d) by (nonlinear_arith);
}

/// A number has at most `n` digits just when it is below the `n`th power
/// of ten.
proof fn lemma_digit_count_pins(m: nat, n: nat)
    requires
        n > 0,
    ensures
        digit_count(m) <= n <==> m < power(10, n),
    decreases n,
{
    assert(power(10, n) == 10 * power(10, (n - 1) as nat));
    assert(digit_count(m / 10) >= 1);
    if n == 1 {
        assert(power(10, 0) == 1);
    } else {
        lemma_power10_positive((n - 1) as nat);
        assert(power(10, (n - 1) as nat) == 10 * power(10, (n - 2) as nat));
        lemma_power10_positive((n - 2) as nat);
        lemma_digit_count_pins(m / 10, (n - 1) as nat);
    }
}

/// Of a number, fourteen digits are kept: all of one that has no more,
/// and of a larger one the nearest multiple of the power of ten that
/// leaves fourteen.
pub proof fn law_fourteen_digits_are_kept(n: nat)
    ensures
        n < power(10, 14) ==> dropped(n) == 0 && rounded14(n) == n,
        n >= power(10, 14) ==> power(10, 13 + dropped(n)) <= n < power(10, 14 + dropped(n)),
        2 * n - power(10, dropped(n)) <= 2 * (rounded14(n) * power(10, dropped(n))) <= 2 * n
            + power(10, dropped(n)),
{
    let k = dropped(n);
    lemma_digit_count_pins(n, 14);
    lemma_power10_positive(k);
    law_rounding_goes_to_the_nearest(n, power(10, k));
    if n < power(10, 14) {
        assert(power(10, 0) == 1);
    } else {
        lemma_digit_count_pins(n, 13 + k);
        lemma_digit_count_pins(n, 14 + k);
    }
}

/// The fields of a finite double say what its magnitude is: the fraction
/// with the hidden bit of a normal number, times two to the exponent
/// field less its bias.
pub proof fn law_doubles_have_their_value(bits: u64)
    requires
        magnitude(bits) < INFINITY_BITS,
    ensures
        ({
            let field = (magnitude(bits) / 0x10_0000_0000_0000) as nat;
            let fraction = (magnitude(bits) % 0x10_0000_0000_0000) as nat;
            let tens = power(10, places(bits));
            &&& field == 0 ==> numerator(bits) * power(2, 1074) == fraction * tens
            &&& field > 0 ==> numerator(bits) * power(2, 1074) == (fraction + 0x10_0000_0000_0000)
                * power(2, (field - 1) as nat) * tens
        }),
{
    let field = (magnitude(bits) / 0x10_0000_0000_0000) as nat;
    let s = significand(bits);
    let e = exponent(bits);
    if e >= 0 {
        lemma_power_add(2, e as nat, 1074);
        assert(power(10, 0) == 1);
        let (a, b) = (power(2, e as nat), power(2, 1074));
        assert(s * a * b == s * (a * b) * 1) by (nonlinear_arith);
    } else {
        let k = (-e) as nat;
        lemma_power_add(2, k, (1074 - k) as nat);
        lemma_tens(k);
        let (a, b, c) = (power(5, k), power(2, k), power(2, (1074 - k) as nat));
        assert(s * a * (b * c) == s * c * (b * a)) by (nonlinear_arith);
        if field == 0 {
            assert(power(2, 0) == 1);
            assert(s * 1 == s);
        }
    }
}

/// A power of ten is one of two times one of five.
proof fn lemma_tens(n: nat)
    ensures
        power(10, n) == power(2, n) * power(5, n),
    decreases n,
{
    if n > 0 {
        let m = (n - 1) as nat;
        lemma_tens(m);
        let (a, b) = (power(2, m), power(5, m));
        assert(10 * (a * b) == (2 * a) * (5 * b)) by (nonlinear_arith);
    } else {
        assert(power(2, 0) == 1 && power(5, 0) == 1);
    }
}

/// Zeros in front of a numeral do not count.
proof fn lemma_leading_zeros(d: Seq<char>, n: nat)
    ensures
        text::numeral_value(text::times('0', n) + d, 10) == text::numeral_value(d, 10),
    decreases n + d.len(),
{
    let t = text::times('0', n) + d;
    if d.len() > 0 {
        assert(t.drop_last() =~= text::times('0', n) + d.drop_last());
        lemma_leading_zeros(d.drop_last(), n);
    } else if n > 0 {
        assert(t.drop_last() =~= text::times('0', (n - 1) as nat) + d);
        lemma_leading_zeros(d, (n - 1) as nat);
    } else {
        assert(t =~= d);
    }
}

/// Each zero behind a numeral is a factor of ten.
proof fn lemma_trailing_zeros(d: Seq<char>, n: nat)
    ensures
        text::numeral_value(d + text::times('0', n), 10) == text::numeral_value(d, 10) * power(
            10,
            n,
        ),
    decreases n,
{
    let t = d + text::times('0', n);
    if n > 0 {
        let m = (n - 1) as nat;
        assert(t.drop_last() =~= d + text::times('0', m));
        assert(t.last() == '0');
        lemma_trailing_zeros(d, m);
        let (a, b) = (text::numeral_value(d, 10), power(10, m));
        assert(a * b * 10 == a * (10 * b)) by (nonlinear_arith);
        assert(power(10, n) == 10 * b);
        assert(text::numeral_value(t, 10) == text::numeral_value(t.drop_last(), 10) * 10);
    } else {
        assert(t =~= d);
        assert(power(10, 0) == 1);
    }
}

/// Whether a text is that of `v / 10^q`: `v` in decimal, with a point in
/// front of its last `q` digits where there are any.
pub open spec fn reads(t: Seq<char>, v: nat, q: nat) -> bool {
    if q == 0 {
        t.len() > 0 && text::numeral_value(t, 10) == v
    } else {
        let i = t.len() - 1 - q;
        i > 0 && t[i] == '.' && text::numeral_value(t.take(i) + t.skip(i + 1), 10) == v
    }
}

/// Whether a text is that of an exponent: its sign and at least two
/// digits.
pub open spec fn reads_exponent(t: Seq<char>, x: int) -> bool {
    &&& t.len() >= 4
    &&& t[0] == 'e'
    &&& x >= 0 ==> t[1] == '+' && text::numeral_value(t.skip(2), 10) == x
    &&& x < 0 ==> t[1] == '-' && text::numeral_value(t.skip(2), 10) == -x
}

/// The digits of a number without its trailing zeros, and how many of
/// those there were.
proof fn lemma_stripped_value(n: nat)
    requires
        n > 0,
    ensures
        digit_count(stripped(n)) <= digit_count(n),
        n == stripped(n) * power(10, (digit_count(n) - digit_count(stripped(n))) as nat),
{
    let d = text::decimal(stripped(n));
    lemma_stripped_text(n);
    lemma_trailing_zeros(d, (digit_count(n) - digit_count(stripped(n))) as nat);
    text::law_decimal_reads_back(n);
    text::law_decimal_reads_back(stripped(n));
}

/// Plain form reads as the digits, the first of them at its exponent.
pub proof fn law_plain_form_reads_back(d: Seq<char>, exp: int)
    requires
        d.len() > 0,
        text::numeral_value(d, 10) >= 0,
    ensures
        d.len() > exp + 1 ==> reads(
            plain(d, exp),
            text::numeral_value(d, 10) as nat,
            (d.len() - 1 - exp) as nat,
        ),
        d.len() <= exp + 1 ==> text::numeral_value(plain(d, exp), 10) == text::numeral_value(d, 10)
            * power(10, (exp + 1 - d.len()) as nat),
{
    let t = plain(d, exp);
    if exp < 0 {
        let z = (-exp - 1) as nat;
        reveal_strlit("0.");
        assert(t.len() == z + 2 + d.len());
        assert(t[1] == '.');
        assert(t.take(1) + t.skip(2) =~= text::times('0', z + 1) + d);
        lemma_leading_zeros(d, z + 1);
    } else if d.len() > exp + 1 {
        assert(t.take(exp + 1) + t.skip(exp + 2) =~= d);
    } else {
        lemma_trailing_zeros(d, (exp + 1 - d.len()) as nat);
    }
}

/// Scientific form is the digits with a point behind the first, and the
/// exponent of that.
pub proof fn law_scientific_form_reads_back(d: Seq<char>, exp: int) -> (cut: int)
    requires
        d.len() > 0,
        text::numeral_value(d, 10) >= 0,
    ensures
        cut == 1 || scientific(d, exp)[1] == '.',
        0 < cut <= scientific(d, exp).len(),
        reads(
            scientific(d, exp).take(cut),
            text::numeral_value(d, 10) as nat,
            (d.len() - 1) as nat,
        ),
        reads_exponent(scientific(d, exp).skip(cut), exp),
{
    let cut: int = if d.len() > 1 {
        d.len() as int + 1
    } else {
        1
    };
    let t = scientific(d, exp);
    let head = t.take(cut);
    let tail = t.skip(cut);
    assert(tail =~= exponent_suffix(exp));
    if d.len() > 1 {
        assert(head =~= d.take(1) + seq!['.'] + d.skip(1));
        assert(head.take(1) + head.skip(2) =~= d);
    } else {
        assert(head =~= d);
    }
    reveal_strlit("e-");
    reveal_strlit("e+");
    let x = if exp < 0 {
        (-exp) as nat
    } else {
        exp as nat
    };
    let digits = text::decimal(x);
    text::law_decimal_reads_back(x);
    assert(tail.skip(2) =~= text::zero_padded(digits, 2));
    if digits.len() < 2 {
        lemma_leading_zeros(digits, (2 - digits.len()) as nat);
    }
    cut
}

/// What a finite number other than zero prints as: the fourteen digits
/// that are kept, read as a decimal. Where the number, so rounded, is at
/// least a ten-thousandth and below ten to the fourteenth, the text has no
/// exponent; elsewhere it has one, behind a single digit before the point.
pub proof fn law_printed_numbers_read_back(bits: u64) -> (read: (int, nat, nat, int))
    requires
        0 < magnitude(bits) < INFINITY_BITS,
    ensures
        ({
            let t = lua_number(bits).skip(sign(bits).len() as int);
            let (cut, v, q, x) = read;
            let kept = rounded14(numerator(bits)) * power(10, dropped(numerator(bits)));
            let unit = power(10, places(bits));
            &&& lua_number(bits) == sign(bits) + t
            &&& 0 < cut <= t.len()
            &&& reads(t.take(cut), v, q)
            &&& v % 10 != 0 || q == 0
            &&& if unit <= kept * power(10, 4) && kept < power(10, 14 + places(bits)) {
                &&& cut == t.len()
                &&& v * unit == kept * power(10, q)
            } else {
                &&& reads_exponent(t.skip(cut), x)
                &&& cut == 1 || t[1] == '.'
                &&& x >= 0 ==> v * power(10, x as nat) * unit == kept * power(10, q)
                &&& x < 0 ==> v * unit == kept * power(10, q) * power(10, (-x) as nat)
            }
        }),
{
    let n = numerator(bits);
    let k = dropped(n);
    let p = places(bits);
    let m = rounded14(n);
    let kept = m * power(10, k);
    let s = stripped(m);
    let d = text::decimal(s);
    let exp = decimal_exponent(bits);
    let t = general(d, exp);
    lemma_rounded_magnitude(bits);
    assert(lua_number(bits).skip(sign(bits).len() as int) =~= t);
    assert(lua_number(bits) =~= sign(bits) + t);
    lemma_stripped_value(m);
    lemma_stripped_text(m);
    lemma_stripped_end(m);
    text::law_decimal_reads_back(s);
    let z = (digit_count(m) - digit_count(s)) as nat;
    assert(exp == d.len() - 1 + z + k - p);
    lemma_power_add(10, z, k);
    assert(kept == s * power(10, z + k)) by {
        let (a, b) = (power(10, z), power(10, k));
        assert(s * a * b == s * (a * b)) by (nonlinear_arith);
    }
    lemma_scaled(m, k);
    lemma_digit_count_pins(kept, 14 + p);
    lemma_scaled(kept, 4);
    if p > 0 {
        lemma_digit_count_pins(kept * power(10, 4), p);
    } else {
        assert(power(10, 0) == 1);
    }
    assert(-4 <= exp < 14 <==> power(10, p) <= kept * power(10, 4) && kept < power(10, 14 + p));
    if -4 <= exp < 14 {
        law_plain_form_reads_back(d, exp);
        if d.len() > exp + 1 {
            let q = (d.len() - 1 - exp) as nat;
            assert(z + k + q == p);
            lemma_power_add(10, z + k, q);
            let (a, b) = (power(10, z + k), power(10, q));
            assert(s * (a * b) == s * a * b) by (nonlinear_arith);
            assert(t.take(t.len() as int) =~= t);
            (t.len() as int, s, q, 0)
        } else {
            let y = (exp + 1 - d.len()) as nat;
            assert(y + p == z + k);
            lemma_power_add(10, y, p);
            let (a, b) = (power(10, y), power(10, p));
            assert(s * (a * b) == s * a * b) by (nonlinear_arith);
            assert(power(10, 0) == 1);
            assert(t.take(t.len() as int) =~= t);
            (t.len() as int, s * power(10, y), 0, 0)
        }
    } else {
        let cut = law_scientific_form_reads_back(d, exp);
        let q = (d.len() - 1) as nat;
        if exp >= 0 {
            assert(exp + p == z + k + q);
            lemma_power_add(10, exp as nat, p);
            lemma_power_add(10, z + k, q);
            let (a, b, e, f) = (
                power(10, exp as nat),
                power(10, p),
                power(10, z + k),
                power(10, q),
            );
            assert(s * a * b == s * (a * b)) by (nonlinear_arith);
            assert(s * e * f == s * (e * f)) by (nonlinear_arith);
        } else {
            let y = (-exp) as nat;
            assert(p == z + k + q + y);
            lemma_power_add(10, z + k, q);
            lemma_power_add(10, z + k + q, y);
            let (e, f, g) = (power(10, z + k), power(10, q), power(10, y));
            assert(s * e * f * g == s * (e * f * g)) by (nonlinear_arith);
        }
        (cut, s, q, exp)
    }
}

/// A number without its trailing zeros does not end in a zero.
proof fn lemma_stripped_end(n: nat)
    requires
        n > 0,
    ensures
        stripped(n) % 10 != 0,
    decreases n,
{
    if n % 10 == 0 {
        lemma_stripped_end(n / 10);
    }
}

/// A double other than zero has a magnitude, and digits to show.
proof fn lemma_rounded_magnitude(bits: u64)
    requires
        0 < magnitude(bits) < INFINITY_BITS,
    ensures
        numerator(bits) > 0,
        rounded14(numerator(bits)) > 0,
{
    let n = numerator(bits);
    let k = dropped(n);
    let s = significand(bits);
    assert(s > 0);
    if exponent(bits) >= 0 {
        let e = power(2, exponent(bits) as nat);
        lemma_power_positive(2, exponent(bits) as nat);
        assert(s * e > 0) by (nonlinear_arith)
            requires
                s > 0,
                e > 0,
        ;
    } else {
        let e = power(5, (-exponent(bits)) as nat);
        lemma_power_positive(5, (-exponent(bits)) as nat);
        assert(s * e > 0) by (nonlinear_arith)
            requires
                s > 0,
                e > 0,
        ;
    }
    law_fourteen_digits_are_kept(n);
    if n >= power(10, 14) {
        lemma_power_add(10, 13, k);
        let (a, b) = (power(10, 13), power(10, k));
        lemma_power10_positive(k);
        lemma_power_at_least(10, 13);
        assert(a * b >= 10 * b) by (nonlinear_arith)
            requires
                a >= 10,
        ;
        if rounded14(n) == 0 {
            assert(0 * b == 0);
        }
    }
}

/// Six decimal places are kept of a number, the nearest: its text is the
/// whole millionths with a point in front of the last six digits.
pub proof fn law_fixed_places_read_back(bits: u64)
    requires
        magnitude(bits) < INFINITY_BITS,
    ensures
        reads(fixed6(bits), millionths(bits), 6),
        ({
            let unit = power(10, places(bits));
            let shown = millionths(bits) * unit;
            let exact = numerator(bits) * 1_000_000;
            2 * exact - unit <= 2 * shown <= 2 * exact + unit
        }),
{
    let m = millionths(bits);
    let (a, b) = (m / 1_000_000, m % 1_000_000);
    let head = text::decimal(a);
    let tail = text::zero_padded(text::decimal(b), 6);
    let t = fixed6(bits);
    lemma_decimal_width(b);
    assert(tail.len() == 6);
    let i = t.len() - 7;
    assert(t.take(i) =~= head);
    assert(t.skip(i + 1) =~= tail);
    text::law_decimal_reads_back(a);
    text::law_decimal_reads_back(b);
    if text::decimal(b).len() < 6 {
        lemma_leading_zeros(text::decimal(b), (6 - text::decimal(b).len()) as nat);
    }
    lemma_numeral_append(head, tail);
    assert(power(10, 6) == 1_000_000) by {
        reveal_with_fuel(power, 7);
    }
    let n = numerator(bits);
    let p = places(bits);
    if p <= 6 {
        let y = (6 - p) as nat;
        lemma_power_add(10, y, p);
        let (c, d) = (power(10, y), power(10, p));
        assert(n * c * d == n * (c * d)) by (nonlinear_arith);
    } else {
        let y = (p - 6) as nat;
        lemma_power_add(10, y, 6);
        lemma_power10_positive(y);
        law_rounding_goes_to_the_nearest(n, power(10, y));
        let d = power(10, y);
        assert(m * (d * 1_000_000) == m * d * 1_000_000) by (nonlinear_arith);
    }
}

/// A number below a million has at most six digits.
proof fn lemma_decimal_width(n: nat)
    requires
        n < 1_000_000,
    ensures
        text::decimal(n).len() <= 6,
{
    reveal_with_fuel(text::decimal, 7);
}

/// A numeral behind another counts the other up by its places.
proof fn lemma_numeral_append(a: Seq<char>, b: Seq<char>)
    ensures
        text::numeral_value(a + b, 10) == text::numeral_value(a, 10) * power(10, b.len())
            + text::numeral_value(b, 10),
    decreases b.len(),
{
    if b.len() == 0 {
        assert(a + b =~= a);
        assert(power(10, 0) == 1);
        assert(text::numeral_value(a, 10) * 1 == text::numeral_value(a, 10));
    } else {
        assert((a + b).drop_last() =~= a + b.drop_last());
        lemma_numeral_append(a, b.drop_last());
        let (x, y) = (text::numeral_value(a, 10), power(10, (b.len() - 1) as nat));
        assert(x * y * 10 == x * (10 * y)) by (nonlinear_arith);
        assert(power(10, b.len()) == 10 * y);
        let (c, init) = (b.last(), text::numeral_value(b.drop_last(), 10));
        assert((a + b).last() == c);
        assert((x * y + init) * 10 == x * y * 10 + init * 10) by (nonlinear_arith);
        let z = text::numeral_value((a + b).drop_last(), 10);
        assert(text::numeral_value(a + b, 10) - z * 10 == text::numeral_value(b, 10) - init * 10);
    }
}

/// What is no finite number, and zero, prints as a word.
pub proof fn law_special_numbers(bits: u64)
    ensures
        magnitude(bits) > INFINITY_BITS ==> lua_number(bits) == seq!['n', 'a', 'n'],
        bits == INFINITY_BITS ==> lua_number(bits) == seq!['i', 'n', 'f'],
        bits == 0xfff0_0000_0000_0000 ==> lua_number(bits) == seq!['-', 'i', 'n', 'f'],
        bits == 0 ==> lua_number(bits) == seq!['0'],
        bits == 0x8000_0000_0000_0000 ==> lua_number(bits) == seq!['-', '0'],
{
    reveal_strlit("nan");
    reveal_strlit("inf");
    reveal_strlit("0");
    assert("nan"@ =~= seq!['n', 'a', 'n']);
    assert(sign(INFINITY_BITS) + "inf"@ =~= seq!['i', 'n', 'f']);
    assert(sign(0xfff0_0000_0000_0000) + "inf"@ =~= seq!['-', 'i', 'n', 'f']);
    assert(sign(0) + "0"@ =~= seq!['0']);
    assert(sign(0x8000_0000_0000_0000) + "0"@ =~= seq!['-', '0']);
}

/// A number and its negative print alike but for the sign; NaN has none.
pub proof fn law_negation_adds_a_sign(bits: u64)
    requires
        !negative(bits),
        !nan(bits),
    ensures
        lua_number((bits + 0x8000_0000_0000_0000) as u64) == seq!['-'] + lua_number(bits),
{
    let minus = (bits + 0x8000_0000_0000_0000) as u64;
    assert(magnitude(minus) == magnitude(bits));
    assert(exponent(minus) == exponent(bits));
    assert(significand(minus) == significand(bits));
    assert(numerator(minus) == numerator(bits));
    assert(places(minus) == places(bits));
    assert(lua_number(minus) =~= seq!['-'] + lua_number(bits));
}

/// Format a double (given by its bit pattern) the way LuaJIT's
/// `tostring()` / `lua_tostring()` would.
///
/// Rules (matching C `printf("%.14g", v)` with LuaJIT's special-value
/// handling):
///
/// * `inf` / `-inf` / `nan` print in lowercase, no sign for NaN.
/// * `-0.0` prints as `-0` (preserved as distinct from `0`).
/// * Up to 14 significant digits; trailing zeros are stripped.
/// * Integer-valued floats print without `.0`.
/// * Scientific notation when the decimal exponent is `< -4` or
///   `>= 14`, with exponent formatted as `e+14`, `e-05`, `e+100`.
pub fn format_lua_number(bits: u64) -> (out: String)
    ensures
        out@ == lua_number(bits),
{
    let mag: u64 = bits % 0x8000_0000_0000_0000;
    if mag > INFINITY_BITS {
        return String::from_str("nan");
    }
    let mut out = String::new();
    if bits >= 0x8000_0000_0000_0000 {
        out.push('-');
    }
    assert(out@ =~= sign(bits));
    if mag == INFINITY_BITS {
        out.append("inf");
        return out;
    }
    if mag == 0 {
        out.append("0");
        return out;
    }
    let (v, k) = decimal_digits(bits);
    let drop: usize = if v.len() > 14 {
        v.len() - 14
    } else {
        0
    };
    proof {
        lemma_numeral_count(v@);
        assert(drop == dropped(numerator(bits)));
        lemma_rounded_positive(v@, drop as nat);
    }
    let q = round_off(&v, drop);
    proof {
        if q@.len() == 0 {
            assert(digits_value(q@) == 0);
        }
        lemma_numeral_count(q@);
    }
    let d = strip_zeros(&q);
    proof {
        lemma_numeral_text(d@);
        assert(shown(d@) =~= text::decimal(stripped(rounded14(numerator(bits)))));
    }
    let exp: i64 = q.len() as i64 - 1 + drop as i64 - k as i64;
    assert(exp == decimal_exponent(bits));
    if -4 <= exp && exp < 14 {
        reformat_decimal(&mut out, &d, exp as i32);
    } else {
        let ghost s = shown(d@);
        let ghost start = out@;
        push_shown(&mut out, &d, 0, 1);
        if d.len() > 1 {
            out.push('.');
            push_shown(&mut out, &d, 1, d.len());
        }
        proof {
            assert(s.take(1) =~= s.subrange(0, 1));
            assert(s.skip(1) =~= s.subrange(1, s.len() as int));
            if d@.len() == 1 {
                assert(s.subrange(0, 1) =~= s);
            }
        }
        format_exponent(&mut out, exp as i32);
        assert(out@ =~= start + scientific(s, exp as int));
    }
    out
}

/// The digits of a finite double's magnitude in millionths.
fn millionth_digits(bits: u64) -> (w: Vec<u8>)
    requires
        magnitude(bits) < INFINITY_BITS,
    ensures
        digits(w@),
        numeral(w@),
        digits_value(w@) == millionths(bits),
{
    let (v, k) = decimal_digits(bits);
    if k > 6 {
        return round_off(&v, (k - 6) as usize);
    }
    let shift: u32 = 6 - k;
    if v.len() == 0 {
        proof {
            assert(0 * power(10, shift as nat) == 0) by (nonlinear_arith);
        }
        return v;
    }
    let mut w: Vec<u8> = Vec::new();
    let mut i: u32 = 0;
    while i < shift
        invariant
            i <= shift,
            w@.len() == i,
            forall|j: int| 0 <= j < i ==> #[trigger] w@[j] == 0,
        decreases shift - i,
    {
        w.push(0);
        i = i + 1;
    }
    let ghost zeros = w@;
    let mut j: usize = 0;
    while j < v.len()
        invariant
            j <= v@.len(),
            zeros.len() == shift,
            w@ == zeros + v@.take(j as int),
        decreases v@.len() - j,
    {
        w.push(v[j]);
        j = j + 1;
        assert(w@ =~= zeros + v@.take(j as int));
    }
    proof {
        assert(w@ =~= zeros + v@);
        lemma_digits_split(w@, shift as int);
        assert(w@.take(shift as int) =~= zeros);
        assert(w@.skip(shift as int) =~= v@);
        lemma_zeros_value(zeros);
        let a = power(10, shift as nat);
        let b = digits_value(v@);
        assert(a * b == b * a) by (nonlinear_arith);
        assert(w@.last() == v@.last());
        assert forall|n: int| 0 <= n < w@.len() implies #[trigger] w@[n] < 10 by {
            if n >= shift {
                assert(w@[n] == v@[n - shift]);
            }
        }
    }
    w
}

/// Zeros stand for zero.
proof fn lemma_zeros_value(v: Seq<u8>)
    requires
        forall|j: int| 0 <= j < v.len() ==> #[trigger] v[j] == 0,
    ensures
        digits_value(v) == 0,
    decreases v.len(),
{
    if v.len() > 0 {
        assert forall|j: int| 0 <= j < v.drop_first().len() implies #[trigger] v.drop_first()[j]
            == 0 by {
            assert(v.drop_first()[j] == v[j + 1]);
        }
        lemma_zeros_value(v.drop_first());
    }
}

/// A digit string, with its leading zeros, is its number zero-padded to
/// its length.
proof fn lemma_padded_text(v: Seq<u8>)
    requires
        digits(v),
        v.len() > 0,
    ensures
        shown(v) == text::zero_padded(text::decimal(digits_value(v)), v.len()),
        text::decimal(digits_value(v)).len() <= v.len(),
    decreases v.len(),
{
    let rest = v.drop_first();
    assert(v[0] < 10);
    if rest.len() == 0 {
        assert(digits_value(rest) == 0);
        assert(shown(v) =~= text::zero_padded(text::decimal(digits_value(v)), v.len()));
    } else {
        assert forall|i: int| 0 <= i < rest.len() implies #[trigger] rest[i] < 10 by {
            assert(rest[i] == v[i + 1]);
        }
        lemma_padded_text(rest);
        let n = digits_value(v);
        let m = digits_value(rest);
        assert(n / 10 == m && n % 10 == v[0]);
        let tail = text::digit_char(v[0] as int);
        assert(shown(v) =~= shown(rest).push(tail));
        if n < 10 {
            assert(m == 0);
            assert(text::decimal(0).len() == 1);
            assert(shown(v) =~= text::zero_padded(text::decimal(n), v.len()));
        } else {
            assert(text::decimal(n) == text::decimal(m).push(tail));
            assert(shown(v) =~= text::zero_padded(text::decimal(n), v.len()));
        }
    }
}

/// The magnitude of a double (given by its bit pattern) with six
/// decimal places, rounded halves to even.
pub fn format_fixed6(bits: u64) -> (out: String)
    ensures
        out@ == fixed6(bits),
{
    let mag: u64 = bits % 0x8000_0000_0000_0000;
    if mag > INFINITY_BITS {
        return String::from_str("NaN");
    }
    if mag == INFINITY_BITS {
        return String::from_str("inf");
    }
    let mut w = millionth_digits(bits);
    let ghost n = millionths(bits);
    // Zeros on top up to the units digit.
    let mut padded: bool = false;
    while w.len() < 7
        invariant
            digits(w@),
            digits_value(w@) == n,
            !padded ==> numeral(w@),
            padded ==> w@.len() <= 7,
        ensures
            w@.len() >= 7,
        decreases 7 - w@.len(),
    {
        proof {
            lemma_digits_push(w@, 0u8);
            assert(power(10, w@.len()) * 0 == 0) by (nonlinear_arith);
        }
        w.push(0);
        padded = true;
    }
    let ghost low = w@.take(6);
    let ghost high = w@.skip(6);
    let len: usize = w.len();
    proof {
        lemma_digits_split(w@, 6);
        assert(digits(low)) by {
            assert forall|i: int| 0 <= i < low.len() implies #[trigger] low[i] < 10 by {
                assert(low[i] == w@[i]);
            }
        }
        assert(digits(high)) by {
            assert forall|i: int| 0 <= i < high.len() implies #[trigger] high[i] < 10 by {
                assert(high[i] == w@[6 + i]);
            }
        }
        lemma_digits_bound(low);
        assert(power(10, 6) == 1_000_000) by {
            reveal_with_fuel(power, 7);
        }
        let l = digits_value(low);
        let h = digits_value(high);
        assert(low.len() == 6);
        assert(l < 1_000_000);
        assert(n == l + 1_000_000 * h);
        assert(n / 1_000_000 == h && n % 1_000_000 == l) by (nonlinear_arith)
            requires
                n == l + 1_000_000 * h,
                0 <= l < 1_000_000,
        ;
        lemma_padded_text(low);
        assert(shown(w@).subrange(len - 6, len as int) =~= shown(low));
        assert(shown(w@).subrange(0, len - 6) =~= shown(high));
        if padded {
            lemma_padded_text(high);
            assert(text::zero_padded(text::decimal(h), 1) =~= text::decimal(h)) by {
                lemma_decimal_len(h);
            }
        } else {
            assert(high.last() == w@.last());
            lemma_numeral_text(high);
        }
        assert(shown(high) =~= text::decimal(h));
    }
    let mut out = String::new();
    push_shown(&mut out, &w, 0, len - 6);
    out.push('.');
    push_shown(&mut out, &w, len - 6, len);
    assert(out@ =~= fixed6(bits));
    out
}

} // verus!
