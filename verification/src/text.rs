//! Text building blocks: numerals, padding, joining, and the two
//! conversions that the standard library performs for us (lossy UTF-8
//! decoding and debug quoting).

use vstd::prelude::*;
use vstd::string::StringExecFns;

verus! {

/// The character of a digit, `0`-`9` then `a`-`f`.
pub open spec fn digit_char(d: int) -> char {
    if d < 10 {
        ('0' as int + d) as char
    } else {
        ('a' as int + (d - 10)) as char
    }
}

/// The decimal numeral of `n`, without leading zeros.
pub open spec fn decimal(n: nat) -> Seq<char>
    decreases n,
{
    if n < 10 {
        seq![digit_char(n as int)]
    } else {
        decimal(n / 10).push(digit_char((n % 10) as int))
    }
}

/// The decimal numeral of a signed number.
pub open spec fn signed_decimal(n: int) -> Seq<char> {
    if n < 0 {
        seq!['-'] + decimal((-n) as nat)
    } else {
        decimal(n as nat)
    }
}

/// The lowercase hexadecimal numeral of `n`, without leading zeros.
pub open spec fn hex(n: nat) -> Seq<char>
    decreases n,
{
    if n < 16 {
        seq![digit_char(n as int)]
    } else {
        hex(n / 16).push(digit_char((n % 16) as int))
    }
}

/// `c` written `n` times.
pub open spec fn times(c: char, n: nat) -> Seq<char> {
    Seq::new(n, |i: int| c)
}

/// `s` with zeros in front up to `width` characters.
pub open spec fn zero_padded(s: Seq<char>, width: nat) -> Seq<char> {
    if s.len() < width {
        times('0', (width - s.len()) as nat) + s
    } else {
        s
    }
}

/// The parts with `sep` between neighbours.
pub open spec fn joined(parts: Seq<Seq<char>>, sep: Seq<char>) -> Seq<char>
    decreases parts.len(),
{
    if parts.len() == 0 {
        seq![]
    } else if parts.len() == 1 {
        parts[0]
    } else {
        joined(parts.drop_last(), sep) + sep + parts.last()
    }
}

/// The views of a sequence's elements.
pub open spec fn views<T: View>(s: Seq<T>) -> Seq<T::V> {
    Seq::new(s.len(), |i: int| s[i]@)
}

/// The number that a numeral stands for in a base of at most 16.
pub open spec fn numeral_value(s: Seq<char>, base: nat) -> int
    decreases s.len(),
{
    if s.len() == 0 {
        0
    } else {
        let c = s.last() as int;
        numeral_value(s.drop_last(), base) * base + if c <= 0x39 {
            c - 0x30
        } else {
            c - 0x57
        }
    }
}

/// A decimal numeral stands for its number, and starts with a zero only
/// when that is zero.
pub proof fn law_decimal_reads_back(n: nat)
    ensures
        numeral_value(decimal(n), 10) == n,
        decimal(n).len() > 0,
        decimal(n)[0] == '0' <==> n == 0,
    decreases n,
{
    let d = (n % 10) as int;
    assert(digit_char(d) as int == 0x30 + d);
    if n >= 10 {
        law_decimal_reads_back(n / 10);
        assert(decimal(n).drop_last() =~= decimal(n / 10));
    } else {
        assert(decimal(n).drop_last() =~= seq![]);
        assert(decimal(n).last() == digit_char(d));
        assert(numeral_value(seq![], 10) == 0);
    }
}

/// A signed numeral is that of the magnitude, behind a minus sign when
/// the number is negative.
pub proof fn law_signed_decimal_reads_back(n: int)
    ensures
        n >= 0 ==> numeral_value(signed_decimal(n), 10) == n,
        n < 0 ==> signed_decimal(n)[0] == '-' && numeral_value(signed_decimal(n).skip(1), 10) == -n,
{
    if n >= 0 {
        law_decimal_reads_back(n as nat);
    } else {
        law_decimal_reads_back((-n) as nat);
        assert(signed_decimal(n).skip(1) =~= decimal((-n) as nat));
    }
}

/// Joining one more part puts the separator and the part behind.
pub proof fn law_joining_keeps_every_part(parts: Seq<Seq<char>>, part: Seq<char>, sep: Seq<char>)
    ensures
        parts.len() > 0 ==> joined(parts.push(part), sep) == joined(parts, sep) + sep + part,
        joined(seq![part], sep) == part,
        joined(seq![], sep) == Seq::<char>::empty(),
{
    assert(parts.push(part).drop_last() =~= parts);
}

/// What lossy UTF-8 decoding makes of a byte string.
pub uninterp spec fn utf8_lossy(bytes: Seq<u8>) -> Seq<char>;

/// What debug formatting makes of a piece of text: the text between
/// double quotes, with escapes inside.
pub uninterp spec fn debug_quoted(s: Seq<char>) -> Seq<char>;

/// Trusted: `String::push` appends the character to the string.
pub assume_specification[ String::push ](s: &mut String, c: char)
    ensures
        final(s)@ == old(s)@.push(c),
;

/// Trusted: `String::from_utf8_lossy` is a function of the bytes. On
/// valid UTF-8 it is the decoded text; what it puts in place of invalid
/// bytes is left to the name.
#[verifier::external_body]
pub(crate) fn decode_lossy(bytes: &[u8]) -> (s: String)
    ensures
        s@ == utf8_lossy(bytes@),
        vstd::utf8::valid_utf8(bytes@) ==> s@ == vstd::utf8::decode_utf8(bytes@),
{
    String::from_utf8_lossy(bytes).into_owned()
}

/// Trusted: the debug format `{:?}` of a string slice is a function of
/// its characters. Which characters it escapes, and how, is left to the
/// name.
#[verifier::external_body]
pub(crate) fn quote(s: &str) -> (q: String)
    ensures
        q@ == debug_quoted(s@),
{
    format!("{:?}", s)
}

/// Appends one digit.
pub fn push_digit(out: &mut String, d: u8)
    requires
        d < 16,
    ensures
        final(out)@ == old(out)@.push(digit_char(d as int)),
{
    if d < 10 {
        out.push((48u8 + d) as char);
    } else {
        out.push((97u8 + (d - 10)) as char);
    }
}

/// Appends the decimal numeral of `n`.
pub fn push_decimal(out: &mut String, n: u64)
    ensures
        final(out)@ == old(out)@ + decimal(n as nat),
    decreases n,
{
    if n < 10 {
        push_digit(out, n as u8);
    } else {
        push_decimal(out, n / 10);
        push_digit(out, (n % 10) as u8);
    }
    assert(out@ =~= old(out)@ + decimal(n as nat));
}

/// Appends the decimal numeral of a signed number.
pub fn push_signed(out: &mut String, n: i64)
    requires
        n > i64::MIN,
    ensures
        final(out)@ == old(out)@ + signed_decimal(n as int),
{
    if n < 0 {
        out.push('-');
        push_decimal(out, (-n) as u64);
    } else {
        push_decimal(out, n as u64);
    }
    assert(out@ =~= old(out)@ + signed_decimal(n as int));
}

/// Appends `n` zeros.
pub fn push_zeros(out: &mut String, n: usize)
    ensures
        final(out)@ == old(out)@ + times('0', n as nat),
{
    let mut i: usize = 0;
    while i < n
        invariant
            i <= n,
            out@ == old(out)@ + times('0', i as nat),
        decreases n - i,
    {
        out.push('0');
        i = i + 1;
        assert(out@ =~= old(out)@ + times('0', i as nat));
    }
    assert(out@ =~= old(out)@ + times('0', n as nat));
}

/// Appends the hexadecimal numeral of `n`, zero-padded to `width`.
pub fn push_hex(out: &mut String, n: u64, width: usize)
    ensures
        final(out)@ == old(out)@ + zero_padded(hex(n as nat), width as nat),
    decreases n,
{
    let rest_width: usize = if width > 0 { width - 1 } else { 0 };
    if n < 16 {
        push_zeros(out, rest_width);
        push_digit(out, n as u8);
    } else {
        push_hex(out, n / 16, rest_width);
        push_digit(out, (n % 16) as u8);
    }
    assert(out@ =~= old(out)@ + zero_padded(hex(n as nat), width as nat));
}

/// Appends `n` spaces.
pub fn push_spaces(out: &mut String, n: usize)
    ensures
        final(out)@ == old(out)@ + times(' ', n as nat),
{
    let mut i: usize = 0;
    while i < n
        invariant
            i <= n,
            out@ == old(out)@ + times(' ', i as nat),
        decreases n - i,
    {
        out.push(' ');
        i = i + 1;
        assert(out@ =~= old(out)@ + times(' ', i as nat));
    }
    assert(out@ =~= old(out)@ + times(' ', n as nat));
}

/// Appends the parts of `names` with `sep` between neighbours.
pub fn push_joined(out: &mut String, names: &Vec<String>, sep: &str)
    ensures
        final(out)@ == old(out)@ + joined(views(names@), sep@),
{
    let mut i: usize = 0;
    let ghost all = views(names@);
    proof {
        assert(out@ =~= old(out)@ + joined(all.take(0), sep@));
    }
    while i < names.len()
        invariant
            i <= names.len(),
            all == views(names@),
            out@ == old(out)@ + joined(all.take(i as int), sep@),
        decreases names.len() - i,
    {
        if i > 0 {
            out.append(sep);
        }
        out.append(names[i].as_str());
        proof {
            let next = all.take(i + 1);
            assert(next.drop_last() =~= all.take(i as int));
            assert(next.last() == names@[i as int]@);
            assert(out@ =~= old(out)@ + joined(next, sep@));
        }
        i = i + 1;
    }
    assert(all.take(i as int) =~= all);
}

} // verus!
