//! Reading and writing the primitive types RakNet puts on the wire.
//!
//! RakNet is big-endian for everything except its 24-bit counters (datagram sequence
//! numbers, frame indices), which are little-endian.
//!
//! Every read is bounds-checked and returns [`DecodeError`] instead of panicking, and no
//! read allocates: [`Reader::bytes`] hands back a borrowed slice.
use crate::num::{be16, be16_value, be32, be32_value, be64, be64_value, le24, le24_value};
use vstd::prelude::*;

verus! {

/// A read that ran past the end of the buffer: what was asked for and what was left.
#[derive(Debug, Clone, Copy, PartialEq, Eq, Structural)]
pub struct DecodeError {
    /// How many bytes the read wanted.
    pub needed: usize,
    /// How many bytes were actually left.
    pub available: usize,
}

/// A cursor over a received datagram: the bytes not yet read.
#[derive(Debug, Clone)]
pub struct Reader<'a> {
    buf: &'a [u8],
}

impl<'a> View for Reader<'a> {
    /// The bytes not yet read.
    type V = Seq<u8>;

    closed spec fn view(&self) -> Seq<u8> {
        self.buf@
    }
}

/// What a read of `n` bytes off the front of `s` fails with when `s` is too short.
pub open spec fn short(n: nat, s: Seq<u8>) -> DecodeError {
    DecodeError { needed: n as usize, available: s.len() as usize }
}

impl<'a> Reader<'a> {
    /// Starts reading at the beginning of `buf`.
    pub fn new(buf: &'a [u8]) -> (r: Self)
        ensures
            r@ == buf@,
    {
        Reader { buf }
    }

    /// How many bytes are still unread.
    pub fn remaining(&self) -> (n: usize)
        ensures
            n == self@.len(),
    {
        self.buf.len()
    }

    /// Borrows the next `n` bytes. A read past the end consumes nothing, however large
    /// `n` is.
    pub fn bytes(&mut self, n: usize) -> (res: Result<&'a [u8], DecodeError>)
        ensures
            n <= old(self)@.len() ==> (res matches Ok(s) && s@ == old(self)@.take(n as int)
                && final(self)@ == old(self)@.skip(n as int)),
            n > old(self)@.len() ==> res == Err::<&'a [u8], DecodeError>(short(n as nat, old(self)@))
                && final(self)@ == old(self)@,
    {
        let available = self.buf.len();
        if n > available {
            return Err(DecodeError { needed: n, available });
        }
        let slice = vstd::slice::slice_subrange(self.buf, 0, n);
        self.buf = vstd::slice::slice_subrange(self.buf, n, available);
        proof {
            assert(slice@ =~= old(self)@.take(n as int));
            assert(self@ =~= old(self)@.skip(n as int));
        }
        Ok(slice)
    }

    /// Reads the next `N` bytes as a fixed-size array.
    pub fn array<const N: usize>(&mut self) -> (res: Result<[u8; N], DecodeError>)
        ensures
            N <= old(self)@.len() ==> (res matches Ok(a) && a@ == old(self)@.take(N as int)
                && final(self)@ == old(self)@.skip(N as int)),
            N > old(self)@.len() ==> res == Err::<[u8; N], DecodeError>(short(N as nat, old(self)@))
                && final(self)@ == old(self)@,
    {
        let slice = self.bytes(N)?;
        let mut out = [0u8; N];
        let mut i: usize = 0;
        while i < N
            invariant
                i <= N,
                slice@.len() == N,
                forall|j: int| 0 <= j < i ==> out@[j] == slice@[j],
            decreases N - i,
        {
            out[i] = slice[i];
            i = i + 1;
        }
        proof {
            assert(out@ =~= slice@);
        }
        Ok(out)
    }

    /// Reads one byte.
    pub fn u8(&mut self) -> (res: Result<u8, DecodeError>)
        ensures
            old(self)@.len() >= 1 ==> res == Ok::<u8, DecodeError>(old(self)@[0]) && final(self)@
                == old(self)@.skip(1),
            old(self)@.len() < 1 ==> res == Err::<u8, DecodeError>(short(1, old(self)@))
                && final(self)@ == old(self)@,
    {
        let s = self.bytes(1)?;
        Ok(s[0])
    }

    /// Reads a big-endian `u16`.
    pub fn u16(&mut self) -> (res: Result<u16, DecodeError>)
        ensures
            old(self)@.len() >= 2 ==> res == Ok::<u16, DecodeError>(be16_value(old(self)@))
                && final(self)@ == old(self)@.skip(2),
            old(self)@.len() < 2 ==> res == Err::<u16, DecodeError>(short(2, old(self)@))
                && final(self)@ == old(self)@,
    {
        let s = self.bytes(2)?;
        Ok(((s[0] as u16) << 8u16) | (s[1] as u16))
    }

    /// Reads a little-endian 24-bit counter.
    pub fn u24(&mut self) -> (res: Result<u32, DecodeError>)
        ensures
            old(self)@.len() >= 3 ==> res == Ok::<u32, DecodeError>(le24_value(old(self)@))
                && final(self)@ == old(self)@.skip(3),
            old(self)@.len() < 3 ==> res == Err::<u32, DecodeError>(short(3, old(self)@))
                && final(self)@ == old(self)@,
    {
        let s = self.bytes(3)?;
        Ok((s[0] as u32) | ((s[1] as u32) << 8u32) | ((s[2] as u32) << 16u32))
    }

    /// Reads a big-endian `u32`.
    pub fn u32(&mut self) -> (res: Result<u32, DecodeError>)
        ensures
            old(self)@.len() >= 4 ==> res == Ok::<u32, DecodeError>(be32_value(old(self)@))
                && final(self)@ == old(self)@.skip(4),
            old(self)@.len() < 4 ==> res == Err::<u32, DecodeError>(short(4, old(self)@))
                && final(self)@ == old(self)@,
    {
        let s = self.bytes(4)?;
        Ok(((s[0] as u32) << 24u32) | ((s[1] as u32) << 16u32) | ((s[2] as u32) << 8u32) | (
        s[3] as u32))
    }

    /// Reads a big-endian `i64`.
    pub fn i64(&mut self) -> (res: Result<i64, DecodeError>)
        ensures
            old(self)@.len() >= 8 ==> res == Ok::<i64, DecodeError>(be64_value(old(self)@) as i64)
                && final(self)@ == old(self)@.skip(8),
            old(self)@.len() < 8 ==> res == Err::<i64, DecodeError>(short(8, old(self)@))
                && final(self)@ == old(self)@,
    {
        let s = self.bytes(8)?;
        let v: u64 = ((s[0] as u64) << 56u64) | ((s[1] as u64) << 48u64) | ((s[2] as u64) << 40u64)
            | ((s[3] as u64) << 32u64) | ((s[4] as u64) << 24u64) | ((s[5] as u64) << 16u64) | ((
        s[6] as u64) << 8u64) | (s[7] as u64);
        Ok(v as i64)
    }
}

/// A growable buffer for building a datagram.
#[derive(Debug, Clone)]
pub struct Writer {
    buf: Vec<u8>,
}

impl View for Writer {
    /// The bytes written so far.
    type V = Seq<u8>;

    closed spec fn view(&self) -> Seq<u8> {
        self.buf@
    }
}

impl Default for Writer {
    fn default() -> (w: Self)
        ensures
            w@ == Seq::<u8>::empty(),
    {
        Writer { buf: Vec::new() }
    }
}

impl Writer {
    /// Starts an empty datagram.
    pub fn new() -> (w: Self)
        ensures
            w@ == Seq::<u8>::empty(),
    {
        Writer { buf: Vec::new() }
    }

    /// Bytes written so far.
    pub fn len(&self) -> (n: usize)
        ensures
            n == self@.len(),
    {
        self.buf.len()
    }

    /// Appends one byte.
    pub fn u8(&mut self, v: u8) -> (ret: &mut Self)
        ensures
            ret@ == old(self)@.push(v),
            final(self)@ == final(ret)@,
    {
        self.buf.push(v);
        self
    }

    /// Appends a big-endian `u16`.
    pub fn u16(&mut self, v: u16) -> (ret: &mut Self)
        ensures
            ret@ == old(self)@ + be16(v),
            final(self)@ == final(ret)@,
    {
        self.buf.push((v >> 8u16) as u8);
        self.buf.push(v as u8);
        assert(self.buf@ =~= old(self)@ + be16(v));
        self
    }

    /// Appends the low 24 bits of `v`, little-endian.
    pub fn u24(&mut self, v: u32) -> (ret: &mut Self)
        ensures
            ret@ == old(self)@ + le24(v),
            final(self)@ == final(ret)@,
    {
        self.buf.push(v as u8);
        self.buf.push((v >> 8u32) as u8);
        self.buf.push((v >> 16u32) as u8);
        assert(self.buf@ =~= old(self)@ + le24(v));
        self
    }

    /// Appends a big-endian `u32`.
    pub fn u32(&mut self, v: u32) -> (ret: &mut Self)
        ensures
            ret@ == old(self)@ + be32(v),
            final(self)@ == final(ret)@,
    {
        self.buf.push((v >> 24u32) as u8);
        self.buf.push((v >> 16u32) as u8);
        self.buf.push((v >> 8u32) as u8);
        self.buf.push(v as u8);
        assert(self.buf@ =~= old(self)@ + be32(v));
        self
    }

    /// Appends a big-endian `i64`.
    pub fn i64(&mut self, v: i64) -> (ret: &mut Self)
        ensures
            ret@ == old(self)@ + be64(v as u64),
            final(self)@ == final(ret)@,
    {
        let u = v as u64;
        self.buf.push((u >> 56u64) as u8);
        self.buf.push((u >> 48u64) as u8);
        self.buf.push((u >> 40u64) as u8);
        self.buf.push((u >> 32u64) as u8);
        self.buf.push((u >> 24u64) as u8);
        self.buf.push((u >> 16u64) as u8);
        self.buf.push((u >> 8u64) as u8);
        self.buf.push(u as u8);
        assert(self.buf@ =~= old(self)@ + be64(v as u64));
        self
    }

    /// Appends raw bytes.
    pub fn bytes(&mut self, v: &[u8]) -> (ret: &mut Self)
        ensures
            ret@ == old(self)@ + v@,
            final(self)@ == final(ret)@,
    {
        let mut i: usize = 0;
        while i < v.len()
            invariant
                i <= v@.len(),
                self.buf@ == old(self)@ + v@.take(i as int),
            decreases v@.len() - i,
        {
            self.buf.push(v[i]);
            proof {
                assert(v@.take(i + 1) =~= v@.take(i as int).push(v@[i as int]));
            }
            i = i + 1;
        }
        proof {
            assert(v@.take(i as int) =~= v@);
        }
        self
    }

    /// Appends `n` zero bytes.
    pub fn zeros(&mut self, n: usize) -> (ret: &mut Self)
        ensures
            ret@ == old(self)@ + Seq::new(n as nat, |i: int| 0u8),
            final(self)@ == final(ret)@,
    {
        let mut i: usize = 0;
        while i < n
            invariant
                i <= n,
                self.buf@ == old(self)@ + Seq::new(i as nat, |j: int| 0u8),
            decreases n - i,
        {
            self.buf.push(0);
            proof {
                assert(self.buf@ =~= old(self)@ + Seq::new((i + 1) as nat, |j: int| 0u8));
            }
            i = i + 1;
        }
        self
    }

    /// Consumes the writer and yields the datagram.
    pub fn finish(self) -> (v: Vec<u8>)
        ensures
            v@ == self@,
    {
        self.buf
    }
}

/// Each integer survives a trip through its encoding.
pub proof fn lemma_wire_round_trip(a: u16, b: u32, c: i64, rest: Seq<u8>)
    ensures
        be16_value(be16(a) + rest) == a,
        le24_value(le24(b) + rest) == b % 0x100_0000,
        be32_value(be32(b) + rest) == b,
        be64_value(be64(c as u64) + rest) as i64 == c,
{
    crate::num::lemma_fixed_width_round_trip(a, b, c as u64);
    assert((be16(a) + rest)[0] == be16(a)[0] && (be16(a) + rest)[1] == be16(a)[1]);
    assert((le24(b) + rest)[0] == le24(b)[0] && (le24(b) + rest)[1] == le24(b)[1] && (le24(b)
        + rest)[2] == le24(b)[2]);
    assert(be32_value(be32(b) + rest) == be32_value(be32(b)));
    assert(be64_value(be64(c as u64) + rest) == be64_value(be64(c as u64)));
    assert(((c as u64) as i64) == c) by (bit_vector);
}

} // verus!
