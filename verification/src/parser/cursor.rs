//! A cursor over an immutable byte buffer.
//!
//! The parser holds one top-level `Cursor`; sub-cursors cover a restricted
//! window of the same buffer and remember where that window starts in the
//! root buffer.

use vstd::prelude::*;
use vstd::slice::slice_subrange;
use crate::error::DoeError;
use crate::strutil::{decimal, push_decimal, push_str};

verus! {

// ── Byte-order arithmetic ───────────────────────────────────────────────────

/// `256` raised to `n`.
pub open spec fn pow256(n: nat) -> nat
    decreases n,
{
    if n == 0 { 1 } else { 256 * pow256((n - 1) as nat) }
}

/// The unsigned integer whose little-endian encoding is `b`.
pub open spec fn le_value(b: Seq<u8>) -> nat
    decreases b.len(),
{
    if b.len() == 0 { 0 } else { b[0] as nat + 256 * le_value(b.drop_first()) }
}

/// The unsigned integer whose big-endian encoding is `b`.
pub open spec fn be_value(b: Seq<u8>) -> nat
    decreases b.len(),
{
    if b.len() == 0 { 0 } else { be_value(b.drop_last()) * 256 + b.last() as nat }
}

/// The two's-complement reading of the `bits`-wide unsigned value `u`.
pub open spec fn to_signed(u: nat, bits: nat) -> int {
    if u < pow2(bits) / 2 { u as int } else { u - pow2(bits) }
}

/// `2` raised to `n`.
pub open spec fn pow2(n: nat) -> nat
    decreases n,
{
    if n == 0 { 1 } else { 2 * pow2((n - 1) as nat) }
}

proof fn lemma_pow_values()
    ensures
        pow256(1) == 0x100,
        pow256(2) == 0x1_0000,
        pow256(4) == 0x1_0000_0000,
        pow256(8) == 0x1_0000_0000_0000_0000,
        pow2(8) == 0x100,
        pow2(16) == 0x1_0000,
        pow2(32) == 0x1_0000_0000,
        pow2(64) == 0x1_0000_0000_0000_0000,
{
    reveal_with_fuel(pow256, 9);
    reveal_with_fuel(pow2, 65);
}

proof fn lemma_pow256_mono(a: nat, b: nat)
    requires
        a <= b,
    ensures
        pow256(a) <= pow256(b),
        pow256(a) >= 1,
    decreases b,
{
    if b > a {
        lemma_pow256_mono(a, (b - 1) as nat);
    } else if a > 0 {
        lemma_pow256_mono((a - 1) as nat, (a - 1) as nat);
    }
}

/// The `n`-byte big-endian encoding of `x` (its low `n` bytes, most
/// significant first), as `to_be_bytes` gives it for an `n`-byte integer.
pub open spec fn be_bytes(x: nat, n: nat) -> Seq<u8>
    decreases n,
{
    if n == 0 {
        Seq::empty()
    } else {
        be_bytes(x / 256, (n - 1) as nat).push((x % 256) as u8)
    }
}

/// The `n`-byte little-endian encoding of `x` (its low `n` bytes, least
/// significant first), as `to_le_bytes` gives it for an `n`-byte integer.
pub open spec fn le_bytes(x: nat, n: nat) -> Seq<u8>
    decreases n,
{
    if n == 0 {
        Seq::empty()
    } else {
        seq![(x % 256) as u8] + le_bytes(x / 256, (n - 1) as nat)
    }
}

/// The `bits`-wide two's-complement encoding of `x`, as an unsigned value.
pub open spec fn to_unsigned(x: int, bits: nat) -> nat {
    if x >= 0 { x as nat } else { (x + pow2(bits)) as nat }
}

proof fn lemma_div_bound(x: nat, n: nat)
    requires
        n >= 1,
        x < pow256(n),
    ensures
        x / 256 < pow256((n - 1) as nat),
{
    let p = pow256((n - 1) as nat);
    assert(pow256(n) == 256 * p);
    assert(x / 256 < p) by (nonlinear_arith)
        requires
            x < 256 * p,
    ;
}

/// Decoding the big-endian encoding of a value that fits in `n` bytes
/// gives the value back: reading a big-endian integer inverts
/// `to_be_bytes`.
pub proof fn law_be_round_trip(x: nat, n: nat)
    requires
        x < pow256(n),
    ensures
        be_bytes(x, n).len() == n,
        be_value(be_bytes(x, n)) == x,
    decreases n,
{
    if n > 0 {
        lemma_div_bound(x, n);
        law_be_round_trip(x / 256, (n - 1) as nat);
        let b = be_bytes(x, n);
        assert(b.drop_last() =~= be_bytes(x / 256, (n - 1) as nat));
    }
}

/// Decoding the little-endian encoding of a value that fits in `n` bytes
/// gives the value back: reading a little-endian integer inverts
/// `to_le_bytes`.
pub proof fn law_le_round_trip(x: nat, n: nat)
    requires
        x < pow256(n),
    ensures
        le_bytes(x, n).len() == n,
        le_value(le_bytes(x, n)) == x,
    decreases n,
{
    if n > 0 {
        lemma_div_bound(x, n);
        law_le_round_trip(x / 256, (n - 1) as nat);
        let b = le_bytes(x, n);
        assert(b.drop_first() =~= le_bytes(x / 256, (n - 1) as nat));
    }
}

/// Reading a `u64` gives back the value whose bytes were read: the eight
/// bytes of `x` in big-endian order decode to `x`, and so do its eight
/// bytes in little-endian order.
pub proof fn law_u64_round_trip(x: u64)
    ensures
        decode_value(be_bytes(x as nat, 8), true) == x,
        decode_value(le_bytes(x as nat, 8), false) == x,
{
    lemma_pow_values();
    law_be_round_trip(x as nat, 8);
    law_le_round_trip(x as nat, 8);
}

/// Reading an `i64` gives back the value whose two's-complement bytes were
/// read, in either byte order (`i64::MIN` and negative values included).
pub proof fn law_i64_round_trip(x: i64)
    ensures
        to_signed(decode_value(le_bytes(to_unsigned(x as int, 64), 8), false), 64) == x,
        to_signed(decode_value(be_bytes(to_unsigned(x as int, 64), 8), true), 64) == x,
{
    lemma_pow_values();
    let u = to_unsigned(x as int, 64);
    assert(u < pow256(8));
    law_be_round_trip(u, 8);
    law_le_round_trip(u, 8);
}

/// Decode a little-endian unsigned integer of at most eight bytes.
fn decode_le(b: &[u8]) -> (v: u64)
    requires
        b@.len() <= 8,
    ensures
        v as nat == le_value(b@),
{
    let mut acc: u64 = 0;
    let mut i: usize = b.len();
    proof {
        lemma_pow_values();
        assert(b@.subrange(i as int, b@.len() as int) =~= Seq::<u8>::empty());
    }
    while i > 0
        invariant
            i <= b@.len() <= 8,
            b@.len() == b.len(),
            acc as nat == le_value(b@.subrange(i as int, b@.len() as int)),
            acc < pow256((b@.len() - i) as nat),
            pow256(8) == 0x1_0000_0000_0000_0000,
        decreases i,
    {
        let ghost old_acc = acc;
        proof {
            lemma_pow256_mono((b@.len() - i + 1) as nat, 8);
            assert(pow256((b@.len() - i + 1) as nat) == 256 * pow256((b@.len() - i) as nat));
        }
        acc = acc * 256 + b[i - 1] as u64;
        i = i - 1;
        proof {
            let s = b@.subrange(i as int, b@.len() as int);
            assert(s.drop_first() =~= b@.subrange(i + 1, b@.len() as int));
            assert(s[0] == b@[i as int]);
        }
    }
    assert(b@.subrange(0, b@.len() as int) =~= b@);
    acc
}

/// Decode a big-endian unsigned integer of at most eight bytes.
fn decode_be(b: &[u8]) -> (v: u64)
    requires
        b@.len() <= 8,
    ensures
        v as nat == be_value(b@),
{
    let mut acc: u64 = 0;
    let mut i: usize = 0;
    proof {
        lemma_pow_values();
        assert(b@.subrange(0, 0) =~= Seq::<u8>::empty());
    }
    while i < b.len()
        invariant
            i <= b@.len() <= 8,
            b@.len() == b.len(),
            acc as nat == be_value(b@.subrange(0, i as int)),
            acc < pow256(i as nat),
            pow256(8) == 0x1_0000_0000_0000_0000,
        decreases b@.len() - i,
    {
        proof {
            lemma_pow256_mono((i + 1) as nat, 8);
            assert(pow256((i + 1) as nat) == 256 * pow256(i as nat));
        }
        acc = acc * 256 + b[i] as u64;
        i = i + 1;
        proof {
            let s = b@.subrange(0, i as int);
            assert(s.drop_last() =~= b@.subrange(0, i - 1));
        }
    }
    assert(b@.subrange(0, b@.len() as int) =~= b@);
    acc
}

// ── Cursor ──────────────────────────────────────────────────────────────────

/// The error text for a read of `requested` bytes at absolute offset
/// `offset` when only `remaining` bytes are left.
pub open spec fn overrun_message(offset: nat, requested: nat, remaining: nat) -> Seq<char> {
    "buffer overrun at offset "@ + decimal(offset) + ": requested "@ + decimal(requested)
        + " bytes, "@ + decimal(remaining) + " remaining"@
}

/// The error text for a seek to `pos` in a window of `size` bytes.
pub open spec fn seek_message(pos: nat, size: nat) -> Seq<char> {
    "seek to "@ + decimal(pos) + " is past end of window (size "@ + decimal(size) + ")"@
}

/// A read-only cursor over a window of a byte buffer.
#[derive(Debug, Clone)]
pub struct Cursor<'buf> {
    buf: &'buf [u8],
    /// Absolute offset of `buf[0]` within the root buffer.
    base: usize,
    /// Current read position relative to `buf[0]`.
    pos: usize,
}

impl<'buf> Cursor<'buf> {
    /// The bytes of this cursor's window.
    pub closed spec fn data(&self) -> Seq<u8> {
        self.buf@
    }

    /// The read position within the window.
    pub closed spec fn spec_pos(&self) -> nat {
        self.pos as nat
    }

    /// Absolute offset of the window's first byte in the root buffer.
    pub closed spec fn spec_base(&self) -> nat {
        self.base as nat
    }

    /// Well-formedness: the position lies within the window, and absolute
    /// offsets into the window fit in a `usize`.
    pub open spec fn wf(&self) -> bool {
        &&& self.spec_pos() <= self.data().len()
        &&& self.spec_base() + self.data().len() <= usize::MAX
    }

    /// The bytes not yet read.
    pub open spec fn rest(&self) -> Seq<u8> {
        self.data().subrange(self.spec_pos() as int, self.data().len() as int)
    }

    /// The window and base are unchanged and the position has moved to `p`.
    pub open spec fn moved_to(&self, old: &Self, p: int) -> bool {
        &&& self.data() == old.data()
        &&& self.spec_base() == old.spec_base()
        &&& self.spec_pos() == p
    }

    /// Create a cursor over an entire buffer.
    pub fn new(buf: &'buf [u8]) -> (res: Self)
        ensures
            res.data() == buf@,
            res.spec_pos() == 0,
            res.spec_base() == 0,
            res.wf(),
    {
        let _n = buf.len();
        Cursor { buf, base: 0, pos: 0 }
    }

    /// Create a sub-cursor covering `[start, start + len)` of this window.
    pub fn sub(&self, start: usize, len: usize) -> (res: Result<Cursor<'buf>, DoeError>)
        requires
            self.wf(),
        ensures
            res is Ok <==> start + len <= self.data().len(),
            res matches Ok(c) ==> {
                &&& c.data() == self.data().subrange(start as int, start + len)
                &&& c.spec_base() == self.spec_base() + start
                &&& c.spec_pos() == 0
                &&& c.wf()
            },
            res matches Err(e) ==> e matches DoeError::Schema(m) && m@ == overrun_message(
                self.spec_base() + self.spec_pos(),
                len as nat,
                (self.data().len() - self.spec_pos()) as nat,
            ),
    {
        if len > self.buf.len() || start > self.buf.len() - len {
            return Err(self.overrun_error(len));
        }
        let end = start + len;
        Ok(Cursor { buf: slice_subrange(self.buf, start, end), base: self.base + start, pos: 0 })
    }

    /// Current byte offset from the start of the root buffer.
    pub fn absolute_pos(&self) -> (res: usize)
        requires
            self.wf(),
        ensures
            res == self.spec_base() + self.spec_pos(),
    {
        self.base + self.pos
    }

    /// Current byte offset within this cursor's window.
    pub fn pos(&self) -> (res: usize)
        ensures
            res == self.spec_pos(),
    {
        self.pos
    }

    /// Number of bytes remaining in this cursor's window.
    pub fn remaining(&self) -> (res: usize)
        requires
            self.wf(),
        ensures
            res == self.data().len() - self.spec_pos(),
    {
        self.buf.len() - self.pos
    }

    /// Returns `true` if the cursor is at the end of its window.
    pub fn is_eof(&self) -> (res: bool)
        requires
            self.wf(),
        ensures
            res == (self.spec_pos() == self.data().len()),
    {
        self.pos >= self.buf.len()
    }

    /// Seek to a position within this cursor's window.
    pub fn seek(&mut self, pos: usize) -> (res: Result<(), DoeError>)
        requires
            old(self).wf(),
        ensures
            final(self).wf(),
            res is Ok <==> pos <= old(self).data().len(),
            res is Ok ==> final(self).moved_to(old(self), pos as int),
            res is Err ==> *final(self) == *old(self),
            res matches Err(e) ==> e matches DoeError::Schema(m) && m@ == seek_message(
                pos as nat,
                old(self).data().len(),
            ),
    {
        if pos > self.buf.len() {
            let mut m = String::new();
            push_str(&mut m, "seek to ");
            push_decimal(&mut m, pos as u64);
            push_str(&mut m, " is past end of window (size ");
            push_decimal(&mut m, self.buf.len() as u64);
            push_str(&mut m, ")");
            assert(m@ =~= seek_message(pos as nat, self.data().len()));
            return Err(DoeError::Schema(m));
        }
        self.pos = pos;
        Ok(())
    }

    /// Read exactly `n` bytes, advancing the cursor.
    pub fn read_bytes(&mut self, n: usize) -> (res: Result<&'buf [u8], DoeError>)
        requires
            old(self).wf(),
        ensures
            final(self).wf(),
            res is Ok <==> n <= old(self).rest().len(),
            res matches Ok(b) ==> {
                &&& b@ == old(self).rest().subrange(0, n as int)
                &&& final(self).moved_to(old(self), old(self).spec_pos() + n)
            },
            res is Err ==> *final(self) == *old(self),
            res matches Err(e) ==> e matches DoeError::Schema(m) && m@ == overrun_message(
                old(self).spec_base() + old(self).spec_pos(),
                n as nat,
                old(self).rest().len(),
            ),
    {
        if n > self.buf.len() - self.pos {
            return Err(self.overrun_error(n));
        }
        let slice = slice_subrange(self.buf, self.pos, self.pos + n);
        self.pos = self.pos + n;
        assert(slice@ =~= old(self).rest().subrange(0, n as int));
        Ok(slice)
    }

    /// Peek at the next `n` bytes without advancing.
    pub fn peek_bytes(&self, n: usize) -> (res: Result<&'buf [u8], DoeError>)
        requires
            self.wf(),
        ensures
            res is Ok <==> n <= self.rest().len(),
            res matches Ok(b) ==> b@ == self.rest().subrange(0, n as int),
            res matches Err(e) ==> e matches DoeError::Schema(m) && m@ == overrun_message(
                self.spec_base() + self.spec_pos(),
                n as nat,
                self.rest().len(),
            ),
    {
        if n > self.buf.len() - self.pos {
            return Err(self.overrun_error(n));
        }
        let slice = slice_subrange(self.buf, self.pos, self.pos + n);
        assert(slice@ =~= self.rest().subrange(0, n as int));
        Ok(slice)
    }

    /// Read bytes up to and including the first occurrence of `terminator`,
    /// returning them without the terminator.  Without a terminator before
    /// the end of the window, everything that is left is returned.
    pub fn read_until(&mut self, terminator: u8) -> (res: Result<&'buf [u8], DoeError>)
        requires
            old(self).wf(),
        ensures
            final(self).wf(),
            res matches Ok(b) && ({
                let rest = old(self).rest();
                match first_index_of(rest, terminator) {
                    Some(k) => b@ == rest.subrange(0, k as int) && final(self).moved_to(
                        old(self),
                        (old(self).spec_pos() + k + 1) as int,
                    ),
                    None => b@ == rest && final(self).moved_to(old(self), old(self).data().len() as int),
                }
            }),
    {
        let start = self.pos;
        let mut i = self.pos;
        while i < self.buf.len()
            invariant
                start <= i <= self.buf@.len(),
                self.buf@.len() == self.buf.len(),
                *self == *old(self),
                start == old(self).spec_pos(),
                old(self).wf(),
                forall|j: int| start <= j < i ==> self.buf@[j] != terminator,
            decreases self.buf@.len() - i,
        {
            if self.buf[i] == terminator {
                let s = slice_subrange(self.buf, start, i);
                self.pos = i + 1;
                proof {
                    let rest = old(self).rest();
                    lemma_first_index_found(rest, terminator, (i - start) as nat);
                    assert(s@ =~= rest.subrange(0, (i - start) as int));
                }
                return Ok(s);
            }
            i = i + 1;
        }
        let s = slice_subrange(self.buf, start, i);
        self.pos = i;
        proof {
            let rest = old(self).rest();
            lemma_first_index_absent(rest, terminator);
            assert(s@ =~= rest);
        }
        Ok(s)
    }

    // ── Typed integer reads ──────────────────────────────────────────────

    /// Read one unsigned byte.
    pub fn read_u8(&mut self) -> (res: Result<u8, DoeError>)
        requires
            old(self).wf(),
        ensures
            final(self).wf(),
            read_int_post(*old(self), *final(self), lift(res, |v: u8| v as int), 1, false, false),
    {
        let b = self.read_bytes(1)?;
        proof {
            reveal_with_fuel(le_value, 2);
            assert(b@.drop_first() =~= Seq::<u8>::empty());
        }
        Ok(b[0])
    }

    /// Read a little-endian `u16`.
    pub fn read_u16_le(&mut self) -> (res: Result<u16, DoeError>)
        requires
            old(self).wf(),
        ensures
            final(self).wf(),
            read_int_post(*old(self), *final(self), lift(res, |v: u16| v as int), 2, false, false),
    {
        let b = self.read_bytes(2)?;
        let v = decode_le(b);
        proof { lemma_le_bound(b@); lemma_pow_values(); }
        Ok(v as u16)
    }

    /// Read a big-endian `u16`.
    pub fn read_u16_be(&mut self) -> (res: Result<u16, DoeError>)
        requires
            old(self).wf(),
        ensures
            final(self).wf(),
            read_int_post(*old(self), *final(self), lift(res, |v: u16| v as int), 2, true, false),
    {
        let b = self.read_bytes(2)?;
        let v = decode_be(b);
        proof { lemma_be_bound(b@); lemma_pow_values(); }
        Ok(v as u16)
    }

    /// Read a little-endian `u32`.
    pub fn read_u32_le(&mut self) -> (res: Result<u32, DoeError>)
        requires
            old(self).wf(),
        ensures
            final(self).wf(),
            read_int_post(*old(self), *final(self), lift(res, |v: u32| v as int), 4, false, false),
    {
        let b = self.read_bytes(4)?;
        let v = decode_le(b);
        proof { lemma_le_bound(b@); lemma_pow_values(); }
        Ok(v as u32)
    }

    /// Read a big-endian `u32`.
    pub fn read_u32_be(&mut self) -> (res: Result<u32, DoeError>)
        requires
            old(self).wf(),
        ensures
            final(self).wf(),
            read_int_post(*old(self), *final(self), lift(res, |v: u32| v as int), 4, true, false),
    {
        let b = self.read_bytes(4)?;
        let v = decode_be(b);
        proof { lemma_be_bound(b@); lemma_pow_values(); }
        Ok(v as u32)
    }

    /// Read a little-endian `u64`.
    pub fn read_u64_le(&mut self) -> (res: Result<u64, DoeError>)
        requires
            old(self).wf(),
        ensures
            final(self).wf(),
            read_int_post(*old(self), *final(self), lift(res, |v: u64| v as int), 8, false, false),
    {
        let b = self.read_bytes(8)?;
        Ok(decode_le(b))
    }

    /// Read a big-endian `u64`.
    pub fn read_u64_be(&mut self) -> (res: Result<u64, DoeError>)
        requires
            old(self).wf(),
        ensures
            final(self).wf(),
            read_int_post(*old(self), *final(self), lift(res, |v: u64| v as int), 8, true, false),
    {
        let b = self.read_bytes(8)?;
        Ok(decode_be(b))
    }

    /// Read one signed byte.
    pub fn read_i8(&mut self) -> (res: Result<i8, DoeError>)
        requires
            old(self).wf(),
        ensures
            final(self).wf(),
            read_int_post(*old(self), *final(self), lift(res, |v: i8| v as int), 1, false, true),
    {
        let u = self.read_u8()?;
        proof { lemma_pow_values(); }
        Ok(if u < 0x80 { u as i8 } else { (u as i16 - 0x100) as i8 })
    }

    /// Read a little-endian `i16`.
    pub fn read_i16_le(&mut self) -> (res: Result<i16, DoeError>)
        requires
            old(self).wf(),
        ensures
            final(self).wf(),
            read_int_post(*old(self), *final(self), lift(res, |v: i16| v as int), 2, false, true),
    {
        let u = self.read_u16_le()?;
        proof { lemma_pow_values(); }
        Ok(if u < 0x8000 { u as i16 } else { (u as i32 - 0x1_0000) as i16 })
    }

    /// Read a big-endian `i16`.
    pub fn read_i16_be(&mut self) -> (res: Result<i16, DoeError>)
        requires
            old(self).wf(),
        ensures
            final(self).wf(),
            read_int_post(*old(self), *final(self), lift(res, |v: i16| v as int), 2, true, true),
    {
        let u = self.read_u16_be()?;
        proof { lemma_pow_values(); }
        Ok(if u < 0x8000 { u as i16 } else { (u as i32 - 0x1_0000) as i16 })
    }

    /// Read a little-endian `i32`.
    pub fn read_i32_le(&mut self) -> (res: Result<i32, DoeError>)
        requires
            old(self).wf(),
        ensures
            final(self).wf(),
            read_int_post(*old(self), *final(self), lift(res, |v: i32| v as int), 4, false, true),
    {
        let u = self.read_u32_le()?;
        proof { lemma_pow_values(); }
        Ok(if u < 0x8000_0000 { u as i32 } else { (u as i64 - 0x1_0000_0000) as i32 })
    }

    /// Read a big-endian `i32`.
    pub fn read_i32_be(&mut self) -> (res: Result<i32, DoeError>)
        requires
            old(self).wf(),
        ensures
            final(self).wf(),
            read_int_post(*old(self), *final(self), lift(res, |v: i32| v as int), 4, true, true),
    {
        let u = self.read_u32_be()?;
        proof { lemma_pow_values(); }
        Ok(if u < 0x8000_0000 { u as i32 } else { (u as i64 - 0x1_0000_0000) as i32 })
    }

    /// Read a little-endian `i64`.
    pub fn read_i64_le(&mut self) -> (res: Result<i64, DoeError>)
        requires
            old(self).wf(),
        ensures
            final(self).wf(),
            read_int_post(*old(self), *final(self), lift(res, |v: i64| v as int), 8, false, true),
    {
        let u = self.read_u64_le()?;
        proof { lemma_pow_values(); }
        Ok(u64_as_i64(u))
    }

    /// Read a big-endian `i64`.
    pub fn read_i64_be(&mut self) -> (res: Result<i64, DoeError>)
        requires
            old(self).wf(),
        ensures
            final(self).wf(),
            read_int_post(*old(self), *final(self), lift(res, |v: i64| v as int), 8, true, true),
    {
        let u = self.read_u64_be()?;
        proof { lemma_pow_values(); }
        Ok(u64_as_i64(u))
    }

    // ── Helpers ──────────────────────────────────────────────────────────

    fn overrun_error(&self, requested: usize) -> (e: DoeError)
        requires
            self.wf(),
        ensures
            e matches DoeError::Schema(m) && m@ == overrun_message(
                self.spec_base() + self.spec_pos(),
                requested as nat,
                (self.data().len() - self.spec_pos()) as nat,
            ),
    {
        let mut m = String::new();
        push_str(&mut m, "buffer overrun at offset ");
        push_decimal(&mut m, (self.base + self.pos) as u64);
        push_str(&mut m, ": requested ");
        push_decimal(&mut m, requested as u64);
        push_str(&mut m, " bytes, ");
        push_decimal(&mut m, (self.buf.len() - self.pos) as u64);
        push_str(&mut m, " remaining");
        assert(m@ =~= overrun_message(
            self.spec_base() + self.spec_pos(),
            requested as nat,
            (self.data().len() - self.spec_pos()) as nat,
        ));
        DoeError::Schema(m)
    }
}

/// Two's-complement reinterpretation of a `u64` as an `i64`.
fn u64_as_i64(u: u64) -> (v: i64)
    ensures
        v as int == to_signed(u as nat, 64),
{
    proof { lemma_pow_values(); }
    if u <= 0x7fff_ffff_ffff_ffff {
        u as i64
    } else {
        let d: u64 = 0xffff_ffff_ffff_ffff - u;
        -(d as i64) - 1
    }
}

/// A result with its success value mapped through `f`.
pub open spec fn lift<T>(r: Result<T, DoeError>, f: spec_fn(T) -> int) -> Result<int, DoeError> {
    match r {
        Ok(v) => Ok(f(v)),
        Err(e) => Err(e),
    }
}

/// The unsigned integer encoded by `b` in the given byte order.
pub open spec fn decode_value(b: Seq<u8>, big_endian: bool) -> nat {
    if big_endian { be_value(b) } else { le_value(b) }
}

/// What a typed read of a `width`-byte integer promises: it succeeds iff
/// that many bytes remain; on success it returns their value in the given
/// byte order (read as two's complement when `signed`) and advances past
/// them; on failure the cursor is unchanged and the error reports the
/// overrun.
pub open spec fn read_int_post(
    old: Cursor,
    new: Cursor,
    res: Result<int, DoeError>,
    width: nat,
    big_endian: bool,
    signed: bool,
) -> bool {
    let bytes = old.rest().subrange(0, width as int);
    &&& res is Ok <==> width <= old.rest().len()
    &&& res matches Ok(v) ==> {
        &&& v == (if signed {
            to_signed(decode_value(bytes, big_endian), 8 * width)
        } else {
            decode_value(bytes, big_endian) as int
        })
        &&& new.moved_to(&old, (old.spec_pos() + width) as int)
    }
    &&& res is Err ==> new == old
    &&& res matches Err(e) ==> e matches DoeError::Schema(m) && m@ == overrun_message(
        old.spec_base() + old.spec_pos(),
        width,
        old.rest().len(),
    )
}

/// The index of the first occurrence of `t` in `s`, if any.
pub open spec fn first_index_of(s: Seq<u8>, t: u8) -> Option<nat>
    decreases s.len(),
{
    if s.len() == 0 {
        None
    } else if s[0] == t {
        Some(0)
    } else {
        match first_index_of(s.drop_first(), t) {
            Some(k) => Some(k + 1),
            None => None,
        }
    }
}

proof fn lemma_first_index_found(s: Seq<u8>, t: u8, k: nat)
    requires
        k < s.len(),
        s[k as int] == t,
        forall|j: int| 0 <= j < k ==> s[j] != t,
    ensures
        first_index_of(s, t) == Some(k),
    decreases k,
{
    if k > 0 {
        lemma_first_index_found(s.drop_first(), t, (k - 1) as nat);
    }
}

proof fn lemma_first_index_absent(s: Seq<u8>, t: u8)
    requires
        forall|j: int| 0 <= j < s.len() ==> s[j] != t,
    ensures
        first_index_of(s, t) is None,
    decreases s.len(),
{
    if s.len() > 0 {
        lemma_first_index_absent(s.drop_first(), t);
    }
}

proof fn lemma_le_bound(b: Seq<u8>)
    ensures
        le_value(b) < pow256(b.len()),
    decreases b.len(),
{
    if b.len() > 0 {
        lemma_le_bound(b.drop_first());
    }
}

proof fn lemma_be_bound(b: Seq<u8>)
    ensures
        be_value(b) < pow256(b.len()),
    decreases b.len(),
{
    if b.len() > 0 {
        lemma_be_bound(b.drop_last());
    }
}

/// A big-endian value of at most seven bytes stays below `2^56`.
pub proof fn lemma_be_below_2_56(b: Seq<u8>)
    requires
        b.len() <= 7,
    ensures
        be_value(b) < 0x100_0000_0000_0000,
{
    lemma_be_bound(b);
    lemma_pow256_mono(b.len(), 7);
    reveal_with_fuel(pow256, 8);
}

} // verus!
