//! Low-level cursor over the bytecode input.
//!
//! The [`Reader`] is a thin abstraction over a `&[u8]` slice that tracks
//! the current position and provides the primitive reads the format
//! requires: fixed-width little-endian integers, raw byte slices, and
//! the two LEB128 variants of the LuaJIT bytecode format.
//!
//! Each read has a mathematical counterpart, a `scan_*` function from
//! the bytes and a position to a [`Scan`].

use vstd::prelude::*;
use vstd::slice::slice_subrange;
use vstd::string::StringExecFns;

use crate::text;
use crate::DecompilerError;
use crate::Fault;

verus! {

/// What a read comes to: its value or its fault, and the position at
/// which it leaves the cursor.
pub struct Scan<T> {
    pub out: Result<T, Fault>,
    pub pos: int,
}

/// The fault of a read of one `what` past the end.
pub open spec fn eof_fault(pos: int, what: Seq<char>) -> Fault {
    Fault::InvalidBytecode { offset: pos, reason: "unexpected end of input while reading "@ + what }
}

/// The fault of a read of `wanted` bytes past the end.
pub open spec fn eof_with_fault(pos: int, what: Seq<char>, wanted: nat, remaining: nat) -> Fault {
    Fault::InvalidBytecode {
        offset: pos,
        reason: "unexpected end of input while reading "@ + what + " ("@ + text::decimal(wanted)
            + " bytes wanted, "@ + text::decimal(remaining) + " remaining)"@,
    }
}

/// Reading one byte.
pub open spec fn scan_u8(b: Seq<u8>, p: int) -> Scan<u8> {
    if p < b.len() {
        Scan { out: Ok(b[p]), pos: p + 1 }
    } else {
        Scan { out: Err(eof_fault(p, "u8"@)), pos: p }
    }
}

/// Reading a run of `n` bytes.
pub open spec fn scan_bytes(b: Seq<u8>, p: int, n: nat) -> Scan<Seq<u8>> {
    if p + n <= b.len() {
        Scan { out: Ok(b.subrange(p, p + n)), pos: p + n }
    } else {
        Scan { out: Err(eof_with_fault(p, "byte slice"@, n, (b.len() - p) as nat)), pos: p }
    }
}

/// The little-endian value of two bytes.
pub open spec fn le16(s: Seq<u8>) -> u16 {
    (s[0] + 0x100 * s[1]) as u16
}

/// The little-endian value of four bytes.
pub open spec fn le32(s: Seq<u8>) -> u32 {
    (s[0] + 0x100 * s[1] + 0x1_0000 * s[2] + 0x100_0000 * s[3]) as u32
}

/// Reading a 16-bit little-endian value.
pub open spec fn scan_u16(b: Seq<u8>, p: int) -> Scan<u16> {
    let s = scan_bytes(b, p, 2);
    Scan {
        out: match s.out {
            Ok(bytes) => Ok(le16(bytes)),
            Err(e) => Err(e),
        },
        pos: s.pos,
    }
}

/// Reading a 32-bit little-endian value.
pub open spec fn scan_u32(b: Seq<u8>, p: int) -> Scan<u32> {
    let s = scan_bytes(b, p, 4);
    Scan {
        out: match s.out {
            Ok(bytes) => Ok(le32(bytes)),
            Err(e) => Err(e),
        },
        pos: s.pos,
    }
}

/// `128` to the power `n`.
pub open spec fn pow128(n: nat) -> nat
    decreases n,
{
    if n == 0 {
        1
    } else {
        128 * pow128((n - 1) as nat)
    }
}

/// The value of a LEB128 byte group: seven value bits per byte, least
/// significant byte first.
pub open spec fn leb_value(s: Seq<u8>) -> nat
    decreases s.len(),
{
    if s.len() == 0 {
        0
    } else {
        (s[0] % 128) as nat + 128 * leb_value(s.drop_first())
    }
}

/// How many bytes from `p` on, `max` at most, carry the continuation
/// bit.
pub open spec fn leb_run(b: Seq<u8>, p: int, max: nat) -> nat
    decreases max,
{
    if max == 0 || p >= b.len() || b[p] < 0x80 {
        0
    } else {
        1 + leb_run(b, p + 1, (max - 1) as nat)
    }
}

/// The reason given for a value that does not fit 32 bits.
pub open spec fn wide_reason(what: Seq<char>, v: nat) -> Seq<char> {
    what + " value 0x"@ + text::hex(v) + " exceeds 32 bits"@
}

/// The reason given for a 32-bit LEB128 of more than five bytes.
pub open spec fn uleb_long_reason() -> Seq<char> {
    "ULEB128 sequence exceeds 5 bytes (canonical limit for u32)"@
}

/// The reason given for a 33-bit LEB128 of more than six bytes.
pub open spec fn uleb33_long_reason() -> Seq<char> {
    "ULEB128_33 sequence exceeds 6 bytes (canonical limit for 33-bit)"@
}

/// Reading an unsigned LEB128 value of at most five bytes and 32 bits.
pub open spec fn scan_uleb(b: Seq<u8>, p: int) -> Scan<u32> {
    let n = leb_run(b, p, 5);
    if n == 5 {
        Scan {
            out: Err(Fault::InvalidBytecode { offset: p + 5, reason: uleb_long_reason() }),
            pos: p + 5,
        }
    } else if p + n >= b.len() {
        Scan { out: Err(eof_fault(p + n, "u8"@)), pos: p + n }
    } else {
        let v = leb_value(b.subrange(p, p + n + 1));
        Scan {
            out: if v <= u32::MAX {
                Ok(v as u32)
            } else {
                Err(
                    Fault::InvalidBytecode {
                        offset: p + n + 1,
                        reason: wide_reason("ULEB128"@, v),
                    },
                )
            },
            pos: p + n + 1,
        }
    }
}

/// The seven low bits of the `i`-th byte of a run of `n` bytes at `p`.
pub open spec fn septet(b: Seq<u8>, p: int, n: int, i: int) -> int {
    if i < n {
        (b[p + i] % 128) as int
    } else {
        0
    }
}

proof fn lemma_continued_run(b: Seq<u8>, p: int, max: nat)
    requires
        0 <= p,
    ensures
        leb_run(b, p, max) <= max,
        leb_run(b, p, max) > 0 ==> p + leb_run(b, p, max) <= b.len(),
        forall|i: int| p <= i < p + leb_run(b, p, max) ==> #[trigger] b[i] >= 0x80,
        leb_run(b, p, max) < max && p + leb_run(b, p, max) < b.len() ==> b[p + leb_run(b, p, max)]
            < 0x80,
    decreases max,
{
    if max > 0 && p < b.len() && b[p] >= 0x80 {
        lemma_continued_run(b, p + 1, (max - 1) as nat);
    }
}

/// A 32-bit LEB128 value is at most five bytes, all but the last with the
/// top bit set, and stands for their seven low bits each, the lowest
/// first.
pub proof fn law_uleb_groups_by_seven(b: Seq<u8>, p: int)
    requires
        0 <= p,
    ensures
        scan_uleb(b, p).out matches Ok(v) ==> {
            let n = scan_uleb(b, p).pos - p;
            &&& 1 <= n <= 5
            &&& p + n <= b.len()
            &&& b[p + n - 1] < 0x80
            &&& forall|i: int| p <= i < p + n - 1 ==> #[trigger] b[i] >= 0x80
            &&& v == septet(b, p, n, 0) + 0x80 * septet(b, p, n, 1) + 0x4000 * septet(b, p, n, 2)
                + 0x20_0000 * septet(b, p, n, 3) + 0x1000_0000 * septet(b, p, n, 4)
        },
{
    lemma_continued_run(b, p, 5);
    let n = leb_run(b, p, 5);
    if n < 5 && p + n < b.len() {
        let s = b.subrange(p, p + n + 1);
        reveal_with_fuel(leb_value, 6);
        assert(forall|i: int| 0 <= i < s.len() ==> s[i] == b[p + i]);
    }
}

/// The 33-bit result for a decoded value and its tag.
pub open spec fn packed33(v: nat, tag: u8, pos: int) -> Scan<(u32, u8)> {
    Scan {
        out: if v <= u32::MAX {
            Ok((v as u32, tag))
        } else {
            Err(Fault::InvalidBytecode { offset: pos, reason: wide_reason("ULEB128_33"@, v) })
        },
        pos,
    }
}

/// Reading the 33-bit LEB128 variant: the low bit of the first byte is
/// a tag, its next six bits are the low value bits, and each of up to
/// five further bytes adds seven more.
pub open spec fn scan_uleb33(b: Seq<u8>, p: int) -> Scan<(u32, u8)> {
    if p >= b.len() {
        Scan { out: Err(eof_fault(p, "u8"@)), pos: p }
    } else {
        let tag = b[p] % 2;
        if b[p] < 0x80 {
            packed33((b[p] / 2) as nat, tag, p + 1)
        } else {
            let n = leb_run(b, p + 1, 5);
            if n == 5 {
                Scan {
                    out: Err(
                        Fault::InvalidBytecode { offset: p + 6, reason: uleb33_long_reason() },
                    ),
                    pos: p + 6,
                }
            } else if p + 1 + n >= b.len() {
                Scan { out: Err(eof_fault(p + 1 + n, "u8"@)), pos: p + 1 + n }
            } else {
                let high = leb_value(b.subrange(p + 1, p + n + 2));
                packed33(((b[p] - 0x80) / 2) as nat + 64 * high, tag, p + n + 2)
            }
        }
    }
}

/// The 33-bit variant is at most six bytes, all but the last with the top
/// bit set. The lowest bit of the first is the tag, and the value is its
/// six next bits and the seven low bits of each further byte, the lowest
/// first.
pub proof fn law_uleb33_groups_by_seven(b: Seq<u8>, p: int)
    requires
        0 <= p,
    ensures
        scan_uleb33(b, p).out matches Ok((v, tag)) ==> {
            let n = scan_uleb33(b, p).pos - p;
            &&& 1 <= n <= 6
            &&& p + n <= b.len()
            &&& b[p + n - 1] < 0x80
            &&& forall|i: int| p <= i < p + n - 1 ==> #[trigger] b[i] >= 0x80
            &&& tag == b[p] % 2
            &&& v == septet(b, p, n, 0) / 2 + 0x40 * septet(b, p, n, 1) + 0x2000 * septet(
                b,
                p,
                n,
                2,
            ) + 0x10_0000 * septet(b, p, n, 3) + 0x800_0000 * septet(b, p, n, 4) + 0x4_0000_0000
                * septet(b, p, n, 5)
        },
{
    lemma_continued_run(b, p + 1, 5);
    let n = leb_run(b, p + 1, 5);
    if n < 5 && p + 1 + n < b.len() {
        let s = b.subrange(p + 1, p + n + 2);
        reveal_with_fuel(leb_value, 6);
        assert(forall|i: int| 0 <= i < s.len() ==> s[i] == b[p + 1 + i]);
    }
}

proof fn lemma_pow128_step(x: nat, p: nat, rest: nat)
    ensures
        128 * (rest + x * p) == 128 * rest + x * (128 * p),
{
    assert(128 * (rest + x * p) == 128 * rest + x * (128 * p)) by (nonlinear_arith);
}

/// Appending a byte to a group adds its value bits above the others.
proof fn lemma_leb_push(s: Seq<u8>, x: u8)
    ensures
        leb_value(s.push(x)) == leb_value(s) + (x % 128) as nat * pow128(s.len()),
    decreases s.len(),
{
    let t = s.push(x);
    if s.len() == 0 {
        assert(t.drop_first() =~= Seq::<u8>::empty());
        assert(leb_value(t.drop_first()) == 0);
        assert(pow128(0) == 1);
        assert((x % 128) as nat * 1 == (x % 128) as nat) by (nonlinear_arith);
    } else {
        assert(t.drop_first() =~= s.drop_first().push(x));
        lemma_leb_push(s.drop_first(), x);
        lemma_pow128_step(
            (x % 128) as nat,
            pow128((s.len() - 1) as nat),
            leb_value(s.drop_first()),
        );
        assert(pow128(s.len()) == 128 * pow128((s.len() - 1) as nat));
    }
}

/// A group of `n` bytes stands for less than `128` to the power `n`.
pub proof fn lemma_leb_bound(s: Seq<u8>)
    ensures
        leb_value(s) < pow128(s.len()),
    decreases s.len(),
{
    if s.len() > 0 {
        lemma_leb_bound(s.drop_first());
    }
}

/// The run of continuation bytes seen so far goes on with what follows.
proof fn lemma_leb_run(b: Seq<u8>, p: int, i: nat, max: nat)
    requires
        i <= max,
        0 <= p,
        p + i <= b.len(),
        forall|k: int| p <= k < p + i ==> #[trigger] b[k] >= 0x80,
    ensures
        leb_run(b, p, max) == i + leb_run(b, p + i, (max - i) as nat),
    decreases i,
{
    if i > 0 {
        assert(b[p] >= 0x80);
        lemma_leb_run(b, p + 1, (i - 1) as nat, (max - 1) as nat);
    }
}

// ---- Encodings ----------------------------------------------------------------

/// The shortest LEB128 encoding of a value.
pub open spec fn uleb_code(v: nat) -> Seq<u8>
    decreases v,
{
    if v < 128 {
        seq![v as u8]
    } else {
        seq![(v % 128 + 128) as u8] + uleb_code(v / 128)
    }
}

/// The shortest 33-bit LEB128 encoding of a value and its tag.
pub open spec fn uleb33_code(v: nat, tag: u8) -> Seq<u8> {
    if v < 64 {
        seq![(2 * v + tag) as u8]
    } else {
        seq![(2 * (v % 64) + tag + 128) as u8] + uleb_code(v / 64)
    }
}

/// The little-endian bytes of a 16-bit value.
pub open spec fn code16(v: u16) -> Seq<u8> {
    seq![(v % 0x100) as u8, (v / 0x100) as u8]
}

/// The little-endian bytes of a 32-bit value.
pub open spec fn code32(v: u32) -> Seq<u8> {
    seq![
        (v % 0x100) as u8,
        (v / 0x100 % 0x100) as u8,
        (v / 0x1_0000 % 0x100) as u8,
        (v / 0x100_0000) as u8,
    ]
}

/// Whether `code` stands at position `p`.
pub open spec fn stands_at(b: Seq<u8>, p: int, code: Seq<u8>) -> bool {
    0 <= p && p + code.len() <= b.len() && b.subrange(p, p + code.len()) == code
}

/// An encoding is as long as its value needs, stands for it, and only
/// its last byte lacks the continuation bit.
proof fn lemma_uleb_code(b: Seq<u8>, p: int, v: nat, max: nat)
    requires
        v < pow128(max),
        stands_at(b, p, uleb_code(v)),
    ensures
        1 <= uleb_code(v).len(),
        max >= 1 ==> uleb_code(v).len() <= max,
        leb_value(uleb_code(v)) == v,
        max >= 1 ==> leb_run(b, p, max) == uleb_code(v).len() - 1,
    decreases v,
{
    let code = uleb_code(v);
    assert(code[0] == b[p]) by {
        assert(b.subrange(p, p + code.len())[0] == b[p]);
    }
    if v < 128 {
        assert(code.drop_first() =~= Seq::<u8>::empty());
        assert(leb_value(code.drop_first()) == 0);
    } else {
        let rest = uleb_code(v / 128);
        assert(pow128(0) == 1);
        assert(max >= 1);
        if max == 1 {
            assert(pow128(1) == 128 * pow128(0));
        }
        assert(pow128(max) == 128 * pow128((max - 1) as nat));
        assert(code.drop_first() =~= rest);
        assert(b.subrange(p + 1, p + 1 + rest.len()) =~= rest) by {
            assert forall|i: int| 0 <= i < rest.len() implies b.subrange(
                p + 1,
                p + 1 + rest.len(),
            )[i] == rest[i] by {
                assert(b.subrange(p, p + code.len())[i + 1] == code[i + 1]);
            }
        }
        lemma_uleb_code(b, p + 1, v / 128, (max - 1) as nat);
    }
}

/// Reading an encoded 32-bit value gives it back, and leaves the cursor
/// behind its last byte; the encoding takes at most five bytes.
pub proof fn law_uleb_round_trip(b: Seq<u8>, p: int, v: u32)
    requires
        stands_at(b, p, uleb_code(v as nat)),
    ensures
        uleb_code(v as nat).len() <= 5,
        scan_uleb(b, p) == (Scan {
            out: Ok::<u32, Fault>(v),
            pos: p + uleb_code(v as nat).len(),
        }),
{
    reveal_with_fuel(pow128, 6);
    lemma_uleb_code(b, p, v as nat, 5);
}

/// Reading an encoded 33-bit value gives back the value and its tag;
/// the encoding takes at most six bytes.
pub proof fn law_uleb33_round_trip(b: Seq<u8>, p: int, v: u32, tag: u8)
    requires
        tag < 2,
        stands_at(b, p, uleb33_code(v as nat, tag)),
    ensures
        uleb33_code(v as nat, tag).len() <= 6,
        scan_uleb33(b, p) == (Scan {
            out: Ok::<(u32, u8), Fault>((v, tag)),
            pos: p + uleb33_code(v as nat, tag).len(),
        }),
{
    let code = uleb33_code(v as nat, tag);
    assert(code[0] == b[p]) by {
        assert(b.subrange(p, p + code.len())[0] == b[p]);
    }
    if v >= 64 {
        let high = (v / 64) as nat;
        let rest = uleb_code(high);
        reveal_with_fuel(pow128, 6);
        assert(b.subrange(p + 1, p + 1 + rest.len()) =~= rest) by {
            assert forall|i: int| 0 <= i < rest.len() implies b.subrange(
                p + 1,
                p + 1 + rest.len(),
            )[i] == rest[i] by {
                assert(b.subrange(p, p + code.len())[i + 1] == code[i + 1]);
            }
        }
        lemma_uleb_code(b, p + 1, high, 5);
        assert(leb_run(b, p + 1, 5) < 5);
    }
}

/// Reading the little-endian bytes of a 16-bit value gives it back.
pub proof fn law_u16_round_trip(b: Seq<u8>, p: int, v: u16)
    requires
        stands_at(b, p, code16(v)),
    ensures
        scan_u16(b, p) == (Scan { out: Ok::<u16, Fault>(v), pos: p + 2 }),
{
}

/// Reading the little-endian bytes of a 32-bit value gives it back.
pub proof fn law_u32_round_trip(b: Seq<u8>, p: int, v: u32)
    requires
        stands_at(b, p, code32(v)),
    ensures
        scan_u32(b, p) == (Scan { out: Ok::<u32, Fault>(v), pos: p + 4 }),
{
}

/// A read leaves the cursor within the bytes and never moves it back.
pub proof fn law_reads_stay_within(b: Seq<u8>, p: int)
    requires
        0 <= p <= b.len(),
    ensures
        p <= scan_u8(b, p).pos <= b.len(),
        p <= scan_u16(b, p).pos <= b.len(),
        p <= scan_u32(b, p).pos <= b.len(),
        p <= scan_uleb(b, p).pos <= b.len(),
        p <= scan_uleb33(b, p).pos <= b.len(),
{
    lemma_leb_run_within(b, p, 5);
    lemma_leb_run_within(b, p + 1, 5);
}

/// A run of continuation bytes ends within the bytes.
proof fn lemma_leb_run_within(b: Seq<u8>, p: int, max: nat)
    ensures
        leb_run(b, p, max) <= max,
        p <= b.len() ==> p + leb_run(b, p, max) <= b.len(),
    decreases max,
{
    if max > 0 && p < b.len() && b[p] >= 0x80 {
        lemma_leb_run_within(b, p + 1, (max - 1) as nat);
    }
}

/// A position-tracking cursor over a byte slice.
pub struct Reader<'a> {
    bytes: &'a [u8],
    pos: usize,
}

impl<'a> Reader<'a> {
    /// The bytes under the cursor.
    pub closed spec fn bytes(self) -> Seq<u8> {
        self.bytes@
    }

    /// The cursor's position.
    pub closed spec fn at(self) -> int {
        self.pos as int
    }

    /// The cursor never stands past the end.
    pub open spec fn wf(self) -> bool {
        0 <= self.at() <= self.bytes().len()
    }

    /// What every read keeps.
    pub open spec fn moved_to(self, before: Reader<'a>, pos: int) -> bool {
        &&& self.wf()
        &&& self.bytes() == before.bytes()
        &&& self.at() == pos
    }

    /// Construct a new reader over the given byte slice, starting at
    /// offset 0.
    pub fn new(bytes: &'a [u8]) -> (r: Self)
        ensures
            r.wf(),
            r.bytes() == bytes@,
            r.at() == 0,
    {
        Reader { bytes, pos: 0 }
    }

    /// The current absolute byte offset.
    pub fn pos(&self) -> (p: usize)
        requires
            self.wf(),
        ensures
            p == self.at(),
            p <= self.bytes().len(),
    {
        self.pos
    }

    /// The total number of bytes available.
    pub fn len(&self) -> (n: usize)
        ensures
            n == self.bytes().len(),
    {
        self.bytes.len()
    }

    /// Number of bytes remaining unread.
    pub fn remaining(&self) -> (n: usize)
        requires
            self.wf(),
        ensures
            n == self.bytes().len() - self.at(),
    {
        self.bytes.len() - self.pos
    }

    /// Read a single byte.
    pub fn read_u8(&mut self) -> (res: Result<u8, DecompilerError>)
        requires
            old(self).wf(),
        ensures
            final(self).moved_to(*old(self), scan_u8(old(self).bytes(), old(self).at()).pos),
            crate::yields(res, scan_u8(old(self).bytes(), old(self).at()).out),
    {
        if self.pos >= self.bytes.len() {
            return Err(self.eof("u8"));
        }
        let v = self.bytes[self.pos];
        self.pos = self.pos + 1;
        Ok(v)
    }

    /// Read a 16-bit little-endian value.
    pub fn read_u16(&mut self) -> (res: Result<u16, DecompilerError>)
        requires
            old(self).wf(),
        ensures
            final(self).moved_to(*old(self), scan_u16(old(self).bytes(), old(self).at()).pos),
            crate::yields(res, scan_u16(old(self).bytes(), old(self).at()).out),
    {
        let bytes = self.read_bytes(2)?;
        Ok(bytes[0] as u16 + 0x100 * (bytes[1] as u16))
    }

    /// Read a 32-bit little-endian value.
    pub fn read_u32(&mut self) -> (res: Result<u32, DecompilerError>)
        requires
            old(self).wf(),
        ensures
            final(self).moved_to(*old(self), scan_u32(old(self).bytes(), old(self).at()).pos),
            crate::yields(res, scan_u32(old(self).bytes(), old(self).at()).out),
    {
        let bytes = self.read_bytes(4)?;
        Ok(
            bytes[0] as u32 + 0x100 * (bytes[1] as u32) + 0x1_0000 * (bytes[2] as u32) + 0x100_0000
                * (bytes[3] as u32),
        )
    }

    /// Borrow the next `n` bytes as a slice without copying. Advances
    /// the cursor past them.
    pub fn read_bytes(&mut self, n: usize) -> (res: Result<&'a [u8], DecompilerError>)
        requires
            old(self).wf(),
        ensures
            final(self).moved_to(
                *old(self),
                scan_bytes(old(self).bytes(), old(self).at(), n as nat).pos,
            ),
            crate::yields(res, scan_bytes(old(self).bytes(), old(self).at(), n as nat).out),
    {
        if n > self.bytes.len() - self.pos {
            return Err(self.eof_with("byte slice", n));
        }
        let end: usize = self.pos + n;
        let slice = slice_subrange(self.bytes, self.pos, end);
        self.pos = end;
        Ok(slice)
    }

    /// Read a standard unsigned LEB128 value. The result is the decoded
    /// 32-bit value.
    ///
    /// Well-formed 32-bit ULEB128s never exceed 5 bytes. This reader
    /// enforces that canonical limit strictly: a sequence longer than 5
    /// bytes, or one whose decoded value exceeds 32 bits, is rejected.
    ///
    /// Accumulation happens in a `u64` so the 5th byte can set bits
    /// above bit 31 without silently truncating; the value is then
    /// validated to fit `u32`.
    pub fn read_uleb128(&mut self) -> (res: Result<u32, DecompilerError>)
        requires
            old(self).wf(),
        ensures
            final(self).moved_to(*old(self), scan_uleb(old(self).bytes(), old(self).at()).pos),
            crate::yields(res, scan_uleb(old(self).bytes(), old(self).at()).out),
    {
        let ghost b = self.bytes();
        let ghost p = self.at();
        let mut v: u64 = 0;
        let mut scale: u64 = 1;
        let mut i: usize = 0;
        proof {
            assert(b.subrange(p, p) =~= Seq::<u8>::empty());
            assert(pow128(0) == 1);
        }
        while i < 5
            invariant
                i <= 5,
                b == old(self).bytes(),
                p == old(self).at(),
                0 <= p,
                self.moved_to(*old(self), p + i),
                p + i <= b.len(),
                forall|k: int| p <= k < p + i ==> #[trigger] b[k] >= 0x80,
                v == leb_value(b.subrange(p, p + i)),
                scale == pow128(i as nat),
            decreases 5 - i,
        {
            proof {
                lemma_leb_run(b, p, i as nat, 5);
                reveal_with_fuel(pow128, 6);
                lemma_leb_bound(b.subrange(p, p + i));
            }
            let byte = self.read_u8()?;
            proof {
                lemma_leb_push(b.subrange(p, p + i), byte);
                assert(b.subrange(p, p + i).push(byte) =~= b.subrange(p, p + i + 1));
                let low: nat = (byte % 128) as nat;
                assert(low * scale <= 127 * scale) by (nonlinear_arith)
                    requires
                        low <= 127,
                ;
                assert((byte % 128) as u64 * scale == low * scale as nat);
            }
            v = v + (byte % 128) as u64 * scale;
            if byte < 0x80 {
                if v <= u32::MAX as u64 {
                    return Ok(v as u32);
                }
                let mut reason = String::from_str("ULEB128");
                push_wide(&mut reason, v);
                return Err(DecompilerError::InvalidBytecode { offset: self.pos, reason });
            }
            scale = scale * 128;
            i = i + 1;
        }
        proof {
            lemma_leb_run(b, p, 5, 5);
        }
        Err(
            DecompilerError::InvalidBytecode {
                offset: self.pos,
                reason: String::from_str(
                    "ULEB128 sequence exceeds 5 bytes (canonical limit for u32)",
                ),
            },
        )
    }

    /// Read the 33-bit ULEB128 variant used for number constants. The
    /// low bit of the first byte is a type tag and is returned alongside
    /// the decoded value so callers can distinguish integer vs
    /// floating-point constants.
    ///
    /// Layout: bits [6:1] of the first byte hold the low 6 bits of the
    /// value, and bit 7 is the standard LEB128 continuation flag.
    /// Subsequent bytes contribute 7 more bits each, in standard LEB128
    /// fashion. Sequences of more than 6 bytes, and values above
    /// `u32::MAX`, are rejected.
    pub fn read_uleb128_33(&mut self) -> (res: Result<(u32, u8), DecompilerError>)
        requires
            old(self).wf(),
        ensures
            final(self).moved_to(*old(self), scan_uleb33(old(self).bytes(), old(self).at()).pos),
            crate::yields(res, scan_uleb33(old(self).bytes(), old(self).at()).out),
    {
        let ghost b = self.bytes();
        let ghost p = self.at();
        let byte0 = self.read_u8()?;
        let tag: u8 = byte0 % 2;
        if byte0 < 0x80 {
            return pack_uleb128_33((byte0 / 2) as u64, tag, self.pos);
        }
        let low: u64 = ((byte0 - 0x80) / 2) as u64;
        let mut high: u64 = 0;
        let mut scale: u64 = 1;
        let mut i: usize = 0;
        proof {
            assert(b.subrange(p + 1, p + 1) =~= Seq::<u8>::empty());
            assert(pow128(0) == 1);
        }
        while i < 5
            invariant
                i <= 5,
                b == old(self).bytes(),
                p == old(self).at(),
                0 <= p < b.len(),
                b[p] == byte0,
                byte0 >= 0x80,
                tag == byte0 % 2,
                low == (byte0 - 0x80) / 2,
                self.moved_to(*old(self), p + 1 + i),
                p + 1 + i <= b.len(),
                forall|k: int| p + 1 <= k < p + 1 + i ==> #[trigger] b[k] >= 0x80,
                high == leb_value(b.subrange(p + 1, p + 1 + i)),
                scale == pow128(i as nat),
            decreases 5 - i,
        {
            proof {
                lemma_leb_run(b, p + 1, i as nat, 5);
                reveal_with_fuel(pow128, 6);
                lemma_leb_bound(b.subrange(p + 1, p + 1 + i));
            }
            let byte = self.read_u8()?;
            proof {
                lemma_leb_push(b.subrange(p + 1, p + 1 + i), byte);
                assert(b.subrange(p + 1, p + 1 + i).push(byte) =~= b.subrange(p + 1, p + i + 2));
                let bits: nat = (byte % 128) as nat;
                assert(bits * scale <= 127 * scale) by (nonlinear_arith)
                    requires
                        bits <= 127,
                ;
                assert((byte % 128) as u64 * scale == bits * scale as nat);
            }
            high = high + (byte % 128) as u64 * scale;
            if byte < 0x80 {
                return pack_uleb128_33(low + 64 * high, tag, self.pos);
            }
            scale = scale * 128;
            i = i + 1;
        }
        proof {
            lemma_leb_run(b, p + 1, 5, 5);
        }
        Err(
            DecompilerError::InvalidBytecode {
                offset: self.pos,
                reason: String::from_str(
                    "ULEB128_33 sequence exceeds 6 bytes (canonical limit for 33-bit)",
                ),
            },
        )
    }

    /// The error of a read of one `what` at the end.
    fn eof(&self, what: &str) -> (e: DecompilerError)
        ensures
            e@ == eof_fault(self.at(), what@),
    {
        let mut reason = String::from_str("unexpected end of input while reading ");
        reason.append(what);
        DecompilerError::InvalidBytecode { offset: self.pos, reason }
    }

    /// The error of a read of `wanted` bytes with fewer left.
    fn eof_with(&self, what: &str, wanted: usize) -> (e: DecompilerError)
        requires
            self.wf(),
        ensures
            e@ == eof_with_fault(
                self.at(),
                what@,
                wanted as nat,
                (self.bytes().len() - self.at()) as nat,
            ),
    {
        let mut reason = String::from_str("unexpected end of input while reading ");
        reason.append(what);
        reason.append(" (");
        text::push_decimal(&mut reason, wanted as u64);
        reason.append(" bytes wanted, ");
        text::push_decimal(&mut reason, self.remaining() as u64);
        reason.append(" remaining)");
        DecompilerError::InvalidBytecode { offset: self.pos, reason }
    }
}

/// Appends what [`wide_reason`] says after the kind of value.
fn push_wide(reason: &mut String, v: u64)
    ensures
        final(reason)@ == wide_reason(old(reason)@, v as nat),
{
    reason.append(" value 0x");
    text::push_hex(reason, v, 0);
    reason.append(" exceeds 32 bits");
}

/// Pack a decoded 33-bit ULEB128 value into the `(u32, tag)` result,
/// rejecting values that do not fit in 32 bits.
fn pack_uleb128_33(v: u64, tag: u8, offset: usize) -> (res: Result<(u32, u8), DecompilerError>)
    ensures
        crate::yields(res, packed33(v as nat, tag, offset as int).out),
{
    if v <= u32::MAX as u64 {
        Ok((v as u32, tag))
    } else {
        let mut reason = String::from_str("ULEB128_33");
        push_wide(&mut reason, v);
        Err(DecompilerError::InvalidBytecode { offset, reason })
    }
}

} // verus!
