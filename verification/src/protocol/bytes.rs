//! Reading and writing the primitives the Bedrock game protocol uses.
//!
//! Little-endian, with unsigned LEB128 varints for lengths and packet ids. The one
//! big-endian field is `ClientNetworkVersion`, which is why [`Reader::u32_be`] exists
//! and is the odd one out.
//!
//! Every read is bounds-checked and none allocates from a length off the wire.
use crate::num::{be32, be32_value, le16, le16_value, le32, le32_value, le64};
use vstd::prelude::*;

verus! {

/// Longest a varint may be before it is a peer wasting our time: five bytes carry the
/// 32 bits, and anything longer is padding a value that cannot fit.
pub const MAX_VARINT_BYTES: usize = 5;

/// Why a decode failed.
#[derive(Debug, Clone, Copy, PartialEq, Eq, Structural)]
pub enum DecodeError {
    /// The buffer ended early.
    UnexpectedEnd {
        /// Bytes wanted.
        needed: usize,
        /// Bytes left.
        available: usize,
    },
    /// A varint ran past the bytes a 32-bit value can occupy.
    VarintTooLong,
}

/// `128` raised to `n`.
pub open spec fn pow128(n: nat) -> nat
    decreases n,
{
    if n == 0 {
        1
    } else {
        128 * pow128((n - 1) as nat)
    }
}

/// The unsigned varint encoding of `v`: seven bits per byte, least significant group
/// first, the high bit set on every byte but the last.
pub open spec fn varint_encoding(v: nat) -> Seq<u8>
    decreases v,
{
    if v < 128 {
        seq![v as u8]
    } else {
        seq![(v % 128 + 128) as u8] + varint_encoding(v / 128)
    }
}

/// The number the low seven bits of each byte spell, first byte least significant.
pub open spec fn varint_value(s: Seq<u8>) -> nat
    decreases s.len(),
{
    if s.len() == 0 {
        0
    } else {
        varint_value(s.drop_last()) + (s.last() % 128) as nat * pow128((s.len() - 1) as nat)
    }
}

/// Where a varint that starts at byte `i` of `s` ends, looking at no byte at or past
/// `max`: one past the first byte whose high bit is clear.
pub open spec fn varint_scan(s: Seq<u8>, i: nat, max: nat) -> Option<nat>
    decreases max - i,
{
    if i >= max || i >= s.len() {
        None
    } else if s[i as int] < 128 {
        Some((i + 1) as nat)
    } else {
        varint_scan(s, i + 1, max)
    }
}

/// How many bytes the varint at the start of `s` occupies, if it ends within `max`
/// bytes and within `s`.
pub open spec fn varint_end(s: Seq<u8>, max: nat) -> Option<nat> {
    varint_scan(s, 0, max)
}

/// What reading a varint off the front of `s` yields: the value and the bytes it
/// occupied, or why it failed.
pub open spec fn varint_read(s: Seq<u8>) -> Result<(u32, nat), DecodeError> {
    match varint_end(s, 5) {
        Some(n) => Ok(((varint_value(s.take(n as int)) % 0x1_0000_0000) as u32, n)),
        None => if s.len() < 5 {
            Err(DecodeError::UnexpectedEnd { needed: 1, available: 0 })
        } else {
            Err(DecodeError::VarintTooLong)
        },
    }
}

/// How many bytes a failed varint read has consumed: everything it looked at.
pub open spec fn varint_error_consumed(s: Seq<u8>) -> nat {
    if s.len() < 5 {
        s.len()
    } else {
        5
    }
}

/// What reading a length-prefixed slice off the front of `s` yields: the slice and the
/// bytes consumed, or why it failed.
pub open spec fn prefixed_read(s: Seq<u8>) -> Result<(Seq<u8>, nat), DecodeError> {
    match varint_read(s) {
        Err(e) => Err(e),
        Ok((len, n)) => {
            let rest = s.skip(n as int);
            if len <= rest.len() {
                Ok((rest.take(len as int), (n + len) as nat))
            } else {
                Err(DecodeError::UnexpectedEnd { needed: len as usize, available: rest.len() as usize })
            }
        },
    }
}

/// How many bytes a failed length-prefixed read has consumed.
pub open spec fn prefixed_error_consumed(s: Seq<u8>) -> nat {
    match varint_read(s) {
        Err(_) => varint_error_consumed(s),
        Ok((_, n)) => n,
    }
}

/// The zigzag mapping of a signed value onto an unsigned one: small magnitudes of
/// either sign become small numbers.
pub open spec fn zigzag32(v: i32) -> u32 {
    if v >= 0 {
        (2 * v) as u32
    } else {
        (-2 * v - 1) as u32
    }
}

/// The inverse of [`zigzag32`].
pub open spec fn unzigzag32(n: u32) -> i32 {
    if n % 2 == 0 {
        (n / 2) as i32
    } else {
        (-(n / 2) - 1) as i32
    }
}

/// Longest a 64-bit varint may be: ten bytes carry the 64 bits.
pub const MAX_VARINT64_BYTES: usize = 10;

/// What reading a 64-bit varint off the front of `s` yields: the value and the bytes
/// it occupied, or why it failed.
pub open spec fn varint64_read(s: Seq<u8>) -> Result<(u64, nat), DecodeError> {
    match varint_end(s, 10) {
        Some(n) => Ok(((varint_value(s.take(n as int)) % 0x1_0000_0000_0000_0000) as u64, n)),
        None => if s.len() < 10 {
            Err(DecodeError::UnexpectedEnd { needed: 1, available: 0 })
        } else {
            Err(DecodeError::VarintTooLong)
        },
    }
}

/// How many bytes a failed 64-bit varint read has consumed: everything it looked at.
pub open spec fn varint64_error_consumed(s: Seq<u8>) -> nat {
    if s.len() < 10 {
        s.len()
    } else {
        10
    }
}

/// The zigzag mapping of a signed 64-bit value onto an unsigned one.
pub open spec fn zigzag64(v: i64) -> u64 {
    if v >= 0 {
        (2 * v) as u64
    } else {
        (-2 * v - 1) as u64
    }
}

/// The inverse of [`zigzag64`].
pub open spec fn unzigzag64(n: u64) -> i64 {
    if n % 2 == 0 {
        (n / 2) as i64
    } else {
        (-(n / 2) - 1) as i64
    }
}

/// What [`Writer::prefixed`] declares as the length of `len` bytes.
pub open spec fn prefix_len(len: nat) -> u32 {
    if len <= u32::MAX {
        len as u32
    } else {
        u32::MAX
    }
}

/// The bytes [`Writer::prefixed`] appends for `v`: its length as a varint, then `v`.
pub open spec fn prefixed_encoding(v: Seq<u8>) -> Seq<u8> {
    varint_encoding(prefix_len(v.len()) as nat) + v
}

/// A cursor over a packet: the bytes not yet read.
#[derive(Debug, Clone)]
pub struct Reader<'a> {
    buf: &'a [u8],
}

impl<'a> View for Reader<'a> {
    /// The bytes not yet read.
    type V = Seq<u8>;

    closed spec fn view(&self) -> Seq<u8> {
        self.buf@
    }
}

impl<'a> Reader<'a> {
    /// Starts at the beginning of `buf`.
    pub fn new(buf: &'a [u8]) -> (r: Self)
        ensures
            r@ == buf@,
    {
        Reader { buf }
    }

    /// Bytes not yet read.
    pub fn remaining(&self) -> (n: usize)
        ensures
            n == self@.len(),
    {
        self.buf.len()
    }

    /// Whether everything has been read.
    pub fn is_empty(&self) -> (b: bool)
        ensures
            b == (self@.len() == 0),
    {
        self.remaining() == 0
    }

    /// Borrows the next `n` bytes. A request past the end consumes nothing.
    pub fn bytes(&mut self, n: usize) -> (res: Result<&'a [u8], DecodeError>)
        ensures
            n <= old(self)@.len() ==> (res matches Ok(s) && s@ == old(self)@.take(n as int)
                && final(self)@ == old(self)@.skip(n as int)),
            n > old(self)@.len() ==> res == Err::<&'a [u8], DecodeError>(
                DecodeError::UnexpectedEnd { needed: n, available: old(self)@.len() as usize },
            ) && final(self)@ == old(self)@,
    {
        let available = self.buf.len();
        if n > available {
            return Err(DecodeError::UnexpectedEnd { needed: n, available });
        }
        let slice = vstd::slice::slice_subrange(self.buf, 0, n);
        self.buf = vstd::slice::slice_subrange(self.buf, n, available);
        proof {
            assert(slice@ =~= old(self)@.take(n as int));
            assert(self@ =~= old(self)@.skip(n as int));
        }
        Ok(slice)
    }

    /// Reads one byte.
    pub fn u8(&mut self) -> (res: Result<u8, DecodeError>)
        ensures
            old(self)@.len() >= 1 ==> res == Ok::<u8, DecodeError>(old(self)@[0]) && final(self)@
                == old(self)@.skip(1),
            old(self)@.len() < 1 ==> res == Err::<u8, DecodeError>(
                DecodeError::UnexpectedEnd { needed: 1, available: 0 },
            ) && final(self)@ == old(self)@,
    {
        let s = self.bytes(1)?;
        Ok(s[0])
    }

    /// Reads a little-endian `u16`.
    pub fn u16(&mut self) -> (res: Result<u16, DecodeError>)
        ensures
            old(self)@.len() >= 2 ==> res == Ok::<u16, DecodeError>(le16_value(old(self)@))
                && final(self)@ == old(self)@.skip(2),
            old(self)@.len() < 2 ==> res == Err::<u16, DecodeError>(
                DecodeError::UnexpectedEnd { needed: 2, available: old(self)@.len() as usize },
            ) && final(self)@ == old(self)@,
    {
        let s = self.bytes(2)?;
        Ok((s[0] as u16) | ((s[1] as u16) << 8u16))
    }

    /// Reads a little-endian `u32`.
    pub fn u32(&mut self) -> (res: Result<u32, DecodeError>)
        ensures
            old(self)@.len() >= 4 ==> res == Ok::<u32, DecodeError>(le32_value(old(self)@))
                && final(self)@ == old(self)@.skip(4),
            old(self)@.len() < 4 ==> res == Err::<u32, DecodeError>(
                DecodeError::UnexpectedEnd { needed: 4, available: old(self)@.len() as usize },
            ) && final(self)@ == old(self)@,
    {
        let s = self.bytes(4)?;
        Ok((s[0] as u32) | ((s[1] as u32) << 8u32) | ((s[2] as u32) << 16u32) | ((s[3] as u32)
            << 24u32))
    }

    /// Reads a big-endian `u32`, for the fields Mojang marks as such.
    pub fn u32_be(&mut self) -> (res: Result<u32, DecodeError>)
        ensures
            old(self)@.len() >= 4 ==> res == Ok::<u32, DecodeError>(be32_value(old(self)@))
                && final(self)@ == old(self)@.skip(4),
            old(self)@.len() < 4 ==> res == Err::<u32, DecodeError>(
                DecodeError::UnexpectedEnd { needed: 4, available: old(self)@.len() as usize },
            ) && final(self)@ == old(self)@,
    {
        let s = self.bytes(4)?;
        Ok(((s[0] as u32) << 24u32) | ((s[1] as u32) << 16u32) | ((s[2] as u32) << 8u32) | (
        s[3] as u32))
    }

    /// Reads an unsigned varint.
    ///
    /// A varint that has not ended after [`MAX_VARINT_BYTES`] bytes is refused, and one
    /// that runs off the end of the buffer fails as a short read of one byte; either way
    /// the bytes looked at are consumed.
    pub fn varint(&mut self) -> (res: Result<u32, DecodeError>)
        ensures
            match varint_read(old(self)@) {
                Ok((v, n)) => res == Ok::<u32, DecodeError>(v) && final(self)@ == old(self)@.skip(
                    n as int,
                ),
                Err(e) => res == Err::<u32, DecodeError>(e) && final(self)@ == old(self)@.skip(
                    varint_error_consumed(old(self)@) as int,
                ),
            },
    {
        let ghost start = self@;
        let mut acc: u64 = 0;
        let mut mult: u64 = 1;
        let mut i: usize = 0;
        proof {
            lemma_pow128_bound(0);
        }
        while i < MAX_VARINT_BYTES
            invariant
                start == old(self)@,
                i <= 5,
                i <= start.len(),
                self@ == start.skip(i as int),
                varint_scan(start, 0, 5) == varint_scan(start, i as nat, 5),
                acc == varint_value(start.take(i as int)),
                i < 5 ==> acc < mult,
                mult <= pow128(4),
                i < 5 ==> mult == pow128(i as nat),
            decreases 5 - i,
        {
            let ghost before = self@;
            let byte = match self.u8() {
                Ok(b) => b,
                Err(e) => {
                    proof {
                        assert(start.len() == i);
                        lemma_scan_runs_out(start, i as nat, 5);
                        assert(self@ =~= start.skip(start.len() as int));
                    }
                    return Err(e);
                },
            };
            proof {
                assert(byte == start[i as int]);
                assert(start.take(i + 1).drop_last() =~= start.take(i as int));
                assert(start.take(i + 1).last() == byte);
                assert(self@ =~= start.skip(i + 1));
                lemma_pow128_bound(i as nat);
            }
            let low = (byte % 128) as u64;
            assert(low * mult <= 127 * mult) by (nonlinear_arith)
                requires
                    low <= 127,
            ;
            acc = acc + low * mult;
            if byte < 128 {
                proof {
                    assert(varint_scan(start, i as nat, 5) == Some((i + 1) as nat));
                }
                let value = (acc % 0x1_0000_0000) as u32;
                return Ok(value);
            }
            i = i + 1;
            if i < MAX_VARINT_BYTES {
                mult = mult * 128;
            }
            proof {
                if i < 5 {
                    lemma_pow128_bound(i as nat);
                    assert(acc < mult) by (nonlinear_arith)
                        requires
                            acc <= low * (mult / 128) + (mult / 128) - 1,
                            low <= 127,
                            mult % 128 == 0,
                    ;
                }
            }
        }
        proof {
            assert(varint_scan(start, 5, 5) is None);
        }
        Err(DecodeError::VarintTooLong)
    }

    /// Reads a zigzag-encoded signed varint.
    pub fn zigzag32(&mut self) -> (res: Result<i32, DecodeError>)
        ensures
            match varint_read(old(self)@) {
                Ok((v, n)) => res == Ok::<i32, DecodeError>(unzigzag32(v)) && final(self)@
                    == old(self)@.skip(n as int),
                Err(e) => res == Err::<i32, DecodeError>(e) && final(self)@ == old(self)@.skip(
                    varint_error_consumed(old(self)@) as int,
                ),
            },
    {
        let n = self.varint()?;
        if n % 2 == 0 {
            Ok((n / 2) as i32)
        } else {
            Ok(-((n / 2) as i32) - 1)
        }
    }

    /// Reads an unsigned 64-bit varint, refusing one that has not ended after
    /// [`MAX_VARINT64_BYTES`] bytes; the bytes looked at are consumed either way.
    pub fn varint64(&mut self) -> (res: Result<u64, DecodeError>)
        ensures
            match varint64_read(old(self)@) {
                Ok((v, n)) => res == Ok::<u64, DecodeError>(v) && final(self)@ == old(self)@.skip(
                    n as int,
                ),
                Err(e) => res == Err::<u64, DecodeError>(e) && final(self)@ == old(self)@.skip(
                    varint64_error_consumed(old(self)@) as int,
                ),
            },
    {
        let ghost start = self@;
        let mut acc: u128 = 0;
        let mut mult: u128 = 1;
        let mut i: usize = 0;
        proof {
            lemma_pow128_bound64(0);
        }
        while i < MAX_VARINT64_BYTES
            invariant
                start == old(self)@,
                i <= 10,
                i <= start.len(),
                self@ == start.skip(i as int),
                varint_scan(start, 0, 10) == varint_scan(start, i as nat, 10),
                acc == varint_value(start.take(i as int)),
                i < 10 ==> acc < mult,
                mult <= pow128(9),
                i < 10 ==> mult == pow128(i as nat),
            decreases 10 - i,
        {
            let byte = match self.u8() {
                Ok(b) => b,
                Err(e) => {
                    proof {
                        assert(start.len() == i);
                        lemma_scan_runs_out(start, i as nat, 10);
                        assert(self@ =~= start.skip(start.len() as int));
                    }
                    return Err(e);
                },
            };
            proof {
                assert(byte == start[i as int]);
                assert(start.take(i + 1).drop_last() =~= start.take(i as int));
                assert(start.take(i + 1).last() == byte);
                assert(self@ =~= start.skip(i + 1));
                lemma_pow128_bound64(i as nat);
            }
            let low = (byte % 128) as u128;
            assert(low * mult <= 127 * mult) by (nonlinear_arith)
                requires
                    low <= 127,
            ;
            acc = acc + low * mult;
            if byte < 128 {
                proof {
                    assert(varint_scan(start, i as nat, 10) == Some((i + 1) as nat));
                }
                let value = (acc % 0x1_0000_0000_0000_0000) as u64;
                return Ok(value);
            }
            i = i + 1;
            if i < MAX_VARINT64_BYTES {
                mult = mult * 128;
            }
            proof {
                if i < 10 {
                    lemma_pow128_bound64(i as nat);
                    assert(acc < mult) by (nonlinear_arith)
                        requires
                            acc <= low * (mult / 128) + (mult / 128) - 1,
                            low <= 127,
                            mult % 128 == 0,
                    ;
                }
            }
        }
        proof {
            assert(varint_scan(start, 10, 10) is None);
        }
        Err(DecodeError::VarintTooLong)
    }

    /// Reads a zigzag-encoded signed 64-bit varint.
    pub fn zigzag64(&mut self) -> (res: Result<i64, DecodeError>)
        ensures
            match varint64_read(old(self)@) {
                Ok((v, n)) => res == Ok::<i64, DecodeError>(unzigzag64(v)) && final(self)@
                    == old(self)@.skip(n as int),
                Err(e) => res == Err::<i64, DecodeError>(e) && final(self)@ == old(self)@.skip(
                    varint64_error_consumed(old(self)@) as int,
                ),
            },
    {
        let n = self.varint64()?;
        if n % 2 == 0 {
            Ok((n / 2) as i64)
        } else {
            Ok(-((n / 2) as i64) - 1)
        }
    }

    /// Reads a little-endian `f32`, as the IEEE 754 bit pattern it is stored as.
    pub fn f32_bits(&mut self) -> (res: Result<u32, DecodeError>)
        ensures
            old(self)@.len() >= 4 ==> res == Ok::<u32, DecodeError>(le32_value(old(self)@))
                && final(self)@ == old(self)@.skip(4),
            old(self)@.len() < 4 ==> res == Err::<u32, DecodeError>(
                DecodeError::UnexpectedEnd { needed: 4, available: old(self)@.len() as usize },
            ) && final(self)@ == old(self)@,
    {
        self.u32()
    }

    /// Reads a varint length followed by that many bytes.
    pub fn prefixed(&mut self) -> (res: Result<&'a [u8], DecodeError>)
        ensures
            match prefixed_read(old(self)@) {
                Ok((v, n)) => (res matches Ok(sl) && sl@ == v) && final(self)@ == old(self)@.skip(
                    n as int,
                ),
                Err(e) => res == Err::<&'a [u8], DecodeError>(e) && final(self)@ == old(self)@.skip(
                    prefixed_error_consumed(old(self)@) as int,
                ),
            },
    {
        let ghost start = self@;
        let len = self.varint()? as usize;
        let res = self.bytes(len);
        proof {
            let n = varint_read(start)->Ok_0.1;
            lemma_varint_scan_bounds(start, 0, 5);
            if len <= start.skip(n as int).len() {
                assert(start.skip(n as int).skip(len as int) =~= start.skip((n + len) as int));
            }
        }
        res
    }
}

/// A varint that ends, ends inside the buffer and after at least one byte.
pub proof fn lemma_varint_scan_bounds(s: Seq<u8>, i: nat, max: nat)
    ensures
        varint_scan(s, i, max) matches Some(n) ==> i < n <= s.len() && n <= max,
    decreases max - i,
{
    if i < max && i < s.len() && s[i as int] >= 128 {
        lemma_varint_scan_bounds(s, i + 1, max);
    }
}

/// A varint that ran out of buffer before it ended did not end.
proof fn lemma_scan_runs_out(s: Seq<u8>, i: nat, max: nat)
    requires
        i >= s.len(),
    ensures
        varint_scan(s, i, max) is None,
{
}

proof fn lemma_pow128_bound(i: nat)
    requires
        i <= 4,
    ensures
        pow128(i) <= pow128(4),
        pow128(4) == 268435456,
        pow128(i) % 128 == 0 || i == 0,
        pow128(i) > 0,
{
    reveal_with_fuel(pow128, 5);
}

proof fn lemma_pow128_bound64(i: nat)
    requires
        i <= 9,
    ensures
        pow128(i) <= pow128(9),
        pow128(9) == 0x8000_0000_0000_0000,
        pow128(i) % 128 == 0 || i == 0,
        pow128(i) > 0,
{
    reveal_with_fuel(pow128, 10);
}

/// The value of one byte in front of a varint: its low seven bits, then the rest
/// shifted up by seven.
proof fn lemma_varint_value_cons(b: u8, rest: Seq<u8>)
    ensures
        varint_value(seq![b] + rest) == (b % 128) as nat + 128 * varint_value(rest),
    decreases rest.len(),
{
    if rest.len() == 0 {
        assert(seq![b] + rest =~= seq![b]);
        assert(seq![b].drop_last() =~= Seq::<u8>::empty());
        assert(pow128(0) == 1);
        assert(varint_value(seq![b]) == varint_value(Seq::<u8>::empty()) + (b % 128) as nat * pow128(0));
    } else {
        let whole = seq![b] + rest;
        let init = rest.drop_last();
        lemma_varint_value_cons(b, init);
        assert(whole.drop_last() =~= seq![b] + init);
        assert(whole.last() == rest.last());
        let k = (rest.len() - 1) as nat;
        assert(pow128(k + 1) == 128 * pow128(k));
        let low = (rest.last() % 128) as nat;
        assert(low * pow128(k + 1) == 128 * (low * pow128(k))) by (nonlinear_arith)
            requires
                pow128(k + 1) == 128 * pow128(k),
        ;
        assert(varint_value(rest) == varint_value(init) + low * pow128(k));
        assert(varint_value(whole) == varint_value(seq![b] + init) + low * pow128(k + 1));
    }
}

/// Every byte of an encoding but the last carries the continuation bit, the last does
/// not, and the low bits spell the value back.
proof fn lemma_varint_encoding_shape(v: nat)
    ensures
        varint_encoding(v).len() >= 1,
        forall|j: int|
            0 <= j < varint_encoding(v).len() - 1 ==> #[trigger] varint_encoding(v)[j] >= 128,
        varint_encoding(v)[varint_encoding(v).len() - 1] < 128,
        varint_value(varint_encoding(v)) == v,
    decreases v,
{
    if v < 128 {
        lemma_varint_value_cons(v as u8, Seq::<u8>::empty());
        assert(seq![v as u8] + Seq::<u8>::empty() =~= seq![v as u8]);
    } else {
        let b = (v % 128 + 128) as u8;
        let tail = varint_encoding(v / 128);
        lemma_varint_encoding_shape(v / 128);
        lemma_varint_value_cons(b, tail);
        let e = varint_encoding(v);
        assert(e == seq![b] + tail);
        assert forall|j: int| 0 <= j < e.len() - 1 implies #[trigger] e[j] >= 128 by {
            if j > 0 {
                assert(e[j] == tail[j - 1]);
            }
        }
        assert(e[e.len() - 1] == tail[tail.len() - 1]);
    }
}

/// A value below `128^k` needs at most `k` bytes.
proof fn lemma_varint_encoding_len(v: nat, k: nat)
    requires
        k >= 1,
        v < pow128(k),
    ensures
        varint_encoding(v).len() <= k,
    decreases k,
{
    if v >= 128 {
        assert(k >= 2) by {
            if k == 1 {
                assert(pow128(1) == 128 * pow128(0));
            }
        }
        let p = pow128((k - 1) as nat);
        assert(pow128(k) == 128 * p);
        assert(v / 128 < p) by (nonlinear_arith)
            requires
                v < 128 * p,
        ;
        lemma_varint_encoding_len(v / 128, (k - 1) as nat);
    }
}

/// A varint whose terminating byte sits at `n - 1` ends there.
proof fn lemma_varint_scan_ends(s: Seq<u8>, i: nat, max: nat, n: nat)
    requires
        i < n <= max,
        n <= s.len(),
        forall|j: int| i <= j < n - 1 ==> #[trigger] s[j] >= 128,
        s[n - 1] < 128,
    ensures
        varint_scan(s, i, max) == Some(n),
    decreases n - i,
{
    if i + 1 < n {
        lemma_varint_scan_ends(s, i + 1, max, n);
    }
}

/// Reading a varint back gives the value that was written, consuming exactly the bytes
/// it occupies and nothing after them.
pub proof fn lemma_varint_round_trip(v: u32, rest: Seq<u8>)
    ensures
        varint_read(varint_encoding(v as nat) + rest) == Ok::<(u32, nat), DecodeError>(
            (v, varint_encoding(v as nat).len()),
        ),
        varint_encoding(v as nat).len() <= 5,
{
    let e = varint_encoding(v as nat);
    let s = e + rest;
    lemma_varint_encoding_shape(v as nat);
    reveal_with_fuel(pow128, 6);
    lemma_varint_encoding_len(v as nat, 5);
    assert forall|j: int| 0 <= j < e.len() - 1 implies #[trigger] s[j] >= 128 by {
        assert(s[j] == e[j]);
    }
    assert(s[e.len() - 1] == e[e.len() - 1]);
    lemma_varint_scan_ends(s, 0, 5, e.len());
    assert(s.take(e.len() as int) =~= e);
}

/// Varints use the fewest bytes: a multi-byte encoding never ends in a zero group,
/// which is the byte a longer, padded encoding of the same value would end with.
pub proof fn lemma_varint_minimal(v: nat)
    ensures
        v >= 128 ==> varint_encoding(v).last() != 0,
        v < 128 <==> varint_encoding(v).len() == 1,
    decreases v,
{
    if v >= 128 {
        lemma_varint_minimal(v / 128);
        lemma_varint_encoding_shape(v / 128);
        let tail = varint_encoding(v / 128);
        assert(varint_encoding(v).last() == tail.last());
        if v / 128 < 128 {
            assert(tail =~= seq![(v / 128) as u8]);
        }
    }
}

/// Reading a zigzag value back gives the signed value that was written.
pub proof fn lemma_zigzag_round_trip(v: i32)
    ensures
        unzigzag32(zigzag32(v)) == v,
{
}

/// Reading a 64-bit varint back gives the value that was written, consuming exactly the
/// bytes it occupies, and a zigzag value comes back with its sign.
pub proof fn lemma_varint64_round_trip(v: u64, s: i64, rest: Seq<u8>)
    ensures
        varint64_read(varint_encoding(v as nat) + rest) == Ok::<(u64, nat), DecodeError>(
            (v, varint_encoding(v as nat).len()),
        ),
        varint_encoding(v as nat).len() <= 10,
        unzigzag64(zigzag64(s)) == s,
{
    let e = varint_encoding(v as nat);
    let t = e + rest;
    lemma_varint_encoding_shape(v as nat);
    reveal_with_fuel(pow128, 11);
    lemma_varint_encoding_len(v as nat, 10);
    assert forall|j: int| 0 <= j < e.len() - 1 implies #[trigger] t[j] >= 128 by {
        assert(t[j] == e[j]);
    }
    assert(t[e.len() - 1] == e[e.len() - 1]);
    lemma_varint_scan_ends(t, 0, 10, e.len());
    assert(t.take(e.len() as int) =~= e);
}

/// Reading a length-prefixed slice back gives the slice that was written and consumes
/// exactly its encoding, whenever its length fits the prefix.
pub proof fn lemma_prefixed_round_trip(v: Seq<u8>, rest: Seq<u8>)
    requires
        v.len() <= u32::MAX,
    ensures
        prefixed_read(prefixed_encoding(v) + rest) == Ok::<(Seq<u8>, nat), DecodeError>(
            (v, prefixed_encoding(v).len()),
        ),
{
    let e = varint_encoding(v.len());
    lemma_varint_round_trip(v.len() as u32, v + rest);
    let s = prefixed_encoding(v) + rest;
    assert(s =~= e + (v + rest));
    assert(s.skip(e.len() as int) =~= v + rest);
    assert((v + rest).take(v.len() as int) =~= v);
}

/// A growable packet buffer.
#[derive(Debug, Clone)]
pub struct Writer {
    buf: Vec<u8>,
}

impl View for Writer {
    /// The bytes written so far.
    type V = Seq<u8>;

    closed spec fn view(&self) -> Seq<u8> {
        self.buf@
    }
}

impl Default for Writer {
    fn default() -> (w: Self)
        ensures
            w@ == Seq::<u8>::empty(),
    {
        Writer { buf: Vec::new() }
    }
}

impl Writer {
    /// An empty buffer.
    pub fn new() -> (w: Self)
        ensures
            w@ == Seq::<u8>::empty(),
    {
        Writer { buf: Vec::new() }
    }

    /// Appends one byte.
    pub fn u8(&mut self, v: u8) -> (ret: &mut Self)
        ensures
            ret@ == old(self)@.push(v),
            final(self)@ == final(ret)@,
    {
        self.buf.push(v);
        self
    }

    /// Appends a little-endian `u16`.
    pub fn u16(&mut self, v: u16) -> (ret: &mut Self)
        ensures
            ret@ == old(self)@ + le16(v),
            final(self)@ == final(ret)@,
    {
        self.buf.push(v as u8);
        self.buf.push((v >> 8u16) as u8);
        assert(self.buf@ =~= old(self)@ + le16(v));
        self
    }

    /// Appends a little-endian `u32`.
    pub fn u32(&mut self, v: u32) -> (ret: &mut Self)
        ensures
            ret@ == old(self)@ + le32(v),
            final(self)@ == final(ret)@,
    {
        self.buf.push(v as u8);
        self.buf.push((v >> 8u32) as u8);
        self.buf.push((v >> 16u32) as u8);
        self.buf.push((v >> 24u32) as u8);
        assert(self.buf@ =~= old(self)@ + le32(v));
        self
    }

    /// Appends a little-endian `u64`.
    pub fn u64(&mut self, v: u64) -> (ret: &mut Self)
        ensures
            ret@ == old(self)@ + le64(v),
            final(self)@ == final(ret)@,
    {
        self.buf.push(v as u8);
        self.buf.push((v >> 8u64) as u8);
        self.buf.push((v >> 16u64) as u8);
        self.buf.push((v >> 24u64) as u8);
        self.buf.push((v >> 32u64) as u8);
        self.buf.push((v >> 40u64) as u8);
        self.buf.push((v >> 48u64) as u8);
        self.buf.push((v >> 56u64) as u8);
        assert(self.buf@ =~= old(self)@ + le64(v));
        self
    }

    /// Appends a big-endian `u32`.
    pub fn u32_be(&mut self, v: u32) -> (ret: &mut Self)
        ensures
            ret@ == old(self)@ + be32(v),
            final(self)@ == final(ret)@,
    {
        self.buf.push((v >> 24u32) as u8);
        self.buf.push((v >> 16u32) as u8);
        self.buf.push((v >> 8u32) as u8);
        self.buf.push(v as u8);
        assert(self.buf@ =~= old(self)@ + be32(v));
        self
    }

    /// Appends an unsigned varint, in as few bytes as the value needs.
    pub fn varint(&mut self, v: u32) -> (ret: &mut Self)
        ensures
            ret@ == old(self)@ + varint_encoding(v as nat),
            final(self)@ == final(ret)@,
    {
        let ghost orig = v;
        let mut v = v;
        while v >= 128
            invariant
                self.buf@ + varint_encoding(v as nat) == old(self)@ + varint_encoding(orig as nat),
            decreases v,
        {
            let byte = (v % 128) as u8 + 128;
            self.buf.push(byte);
            proof {
                assert(varint_encoding(v as nat) == seq![byte] + varint_encoding((v / 128) as nat));
                assert(self.buf@ + varint_encoding((v / 128) as nat) =~= old(self)@
                    + varint_encoding(orig as nat));
            }
            v = v / 128;
        }
        self.buf.push(v as u8);
        proof {
            assert(self.buf@ =~= old(self)@ + varint_encoding(orig as nat));
        }
        self
    }
    /// Appends a zigzag-encoded signed varint.
    pub fn zigzag32(&mut self, v: i32) -> (ret: &mut Self)
        ensures
            ret@ == old(self)@ + varint_encoding(zigzag32(v) as nat),
            final(self)@ == final(ret)@,
    {
        let n: u32 = if v >= 0 {
            (v as u32) * 2
        } else {
            ((-(v as i64)) * 2 - 1) as u32
        };
        self.varint(n)
    }

    /// Appends an unsigned 64-bit varint, in as few bytes as the value needs.
    pub fn varint64(&mut self, v: u64) -> (ret: &mut Self)
        ensures
            ret@ == old(self)@ + varint_encoding(v as nat),
            final(self)@ == final(ret)@,
    {
        let ghost orig = v;
        let mut v = v;
        while v >= 128
            invariant
                self.buf@ + varint_encoding(v as nat) == old(self)@ + varint_encoding(orig as nat),
            decreases v,
        {
            let byte = (v % 128) as u8 + 128;
            self.buf.push(byte);
            proof {
                assert(varint_encoding(v as nat) == seq![byte] + varint_encoding((v / 128) as nat));
                assert(self.buf@ + varint_encoding((v / 128) as nat) =~= old(self)@
                    + varint_encoding(orig as nat));
            }
            v = v / 128;
        }
        self.buf.push(v as u8);
        proof {
            assert(self.buf@ =~= old(self)@ + varint_encoding(orig as nat));
        }
        self
    }

    /// Appends a zigzag-encoded signed 64-bit varint.
    pub fn zigzag64(&mut self, v: i64) -> (ret: &mut Self)
        ensures
            ret@ == old(self)@ + varint_encoding(zigzag64(v) as nat),
            final(self)@ == final(ret)@,
    {
        let n: u64 = if v >= 0 {
            (v as u64) * 2
        } else {
            ((-(v as i128)) * 2 - 1) as u64
        };
        self.varint64(n)
    }

    /// Appends a little-endian `f32` given as its IEEE 754 bit pattern.
    pub fn f32_bits(&mut self, bits: u32) -> (ret: &mut Self)
        ensures
            ret@ == old(self)@ + le32(bits),
            final(self)@ == final(ret)@,
    {
        self.u32(bits)
    }

    /// Appends a position: three `f32`s, x then y then z, as their bit patterns.
    pub fn vec3_bits(&mut self, x: u32, y: u32, z: u32) -> (ret: &mut Self)
        ensures
            ret@ == old(self)@ + le32(x) + le32(y) + le32(z),
            final(self)@ == final(ret)@,
    {
        self.u32(x);
        self.u32(y);
        self.u32(z);
        assert(self@ =~= old(self)@ + le32(x) + le32(y) + le32(z));
        self
    }

    /// Appends raw bytes.
    pub fn bytes(&mut self, v: &[u8]) -> (ret: &mut Self)
        ensures
            ret@ == old(self)@ + v@,
            final(self)@ == final(ret)@,
    {
        let mut i: usize = 0;
        while i < v.len()
            invariant
                i <= v@.len(),
                self.buf@ == old(self)@ + v@.take(i as int),
            decreases v@.len() - i,
        {
            self.buf.push(v[i]);
            proof {
                assert(v@.take(i + 1) =~= v@.take(i as int).push(v@[i as int]));
            }
            i = i + 1;
        }
        proof {
            assert(v@.take(v@.len() as int) =~= v@);
        }
        self
    }

    /// Appends a varint length followed by the bytes.
    ///
    /// A slice longer than a `u32` can count declares `u32::MAX`.
    pub fn prefixed(&mut self, v: &[u8]) -> (ret: &mut Self)
        ensures
            ret@ == old(self)@ + prefixed_encoding(v@),
            final(self)@ == final(ret)@,
    {
        let len: u32 = if v.len() <= u32::MAX as usize {
            v.len() as u32
        } else {
            u32::MAX
        };
        self.varint(len);
        let ret = self.bytes(v);
        proof {
            assert(ret@ =~= old(self)@ + prefixed_encoding(v@));
        }
        ret
    }

    /// Bytes written so far.
    pub fn len(&self) -> (n: usize)
        ensures
            n == self@.len(),
    {
        self.buf.len()
    }

    /// Whether nothing has been written.
    pub fn is_empty(&self) -> (b: bool)
        ensures
            b == (self@.len() == 0),
    {
        self.buf.len() == 0
    }

    /// Takes the buffer.
    pub fn finish(self) -> (out: Vec<u8>)
        ensures
            out@ == self@,
    {
        self.buf
    }
}

} // verus!
