//! Frames: the unit of reliability inside a datagram.
//!
//! ```text
//! u8   reliability in the top 3 bits, split flag at 0x10
//! u16  body length IN BITS, big-endian
//! u24  reliable index      if reliable
//! u24  sequence index      if sequenced
//! u24  order index         if ordered or sequenced
//! u8   order channel       if ordered or sequenced
//! u32  split count         if split
//! u16  split id            if split
//! u32  split index         if split
//! ```
//!
//! The length is in bits. A byte count read straight out of that field is eight times
//! too small and desynchronises every frame after it in the datagram.
use crate::num::{be16, be16_value, be32, be32_value, le24, le24_value};
use crate::raknet::wire::{short, DecodeError, Reader, Writer};
use vstd::prelude::*;

verus! {

/// The split flag in a frame's first byte.
pub const SPLIT_FLAG: u8 = 0x10;

/// Delivery guarantee for one frame.
#[derive(Debug, Clone, Copy, PartialEq, Eq, Structural)]
pub enum Reliability {
    /// Fire and forget.
    Unreliable,
    /// Fire and forget; older frames arriving late are dropped.
    UnreliableSequenced,
    /// Retransmitted until acknowledged.
    Reliable,
    /// Retransmitted and delivered in order. What Bedrock uses for the game.
    ReliableOrdered,
    /// Retransmitted, with older frames dropped rather than reordered.
    ReliableSequenced,
    /// Unreliable, with delivery receipt.
    UnreliableAckReceipt,
    /// Reliable, with delivery receipt.
    ReliableAckReceipt,
    /// Reliable and ordered, with delivery receipt.
    ReliableOrderedAckReceipt,
}

/// A reliability's number on the wire.
pub open spec fn reliability_value(r: Reliability) -> u8 {
    match r {
        Reliability::Unreliable => 0,
        Reliability::UnreliableSequenced => 1,
        Reliability::Reliable => 2,
        Reliability::ReliableOrdered => 3,
        Reliability::ReliableSequenced => 4,
        Reliability::UnreliableAckReceipt => 5,
        Reliability::ReliableAckReceipt => 6,
        Reliability::ReliableOrderedAckReceipt => 7,
    }
}

/// The reliability a number stands for.
pub open spec fn reliability_of(v: u8) -> Option<Reliability> {
    if v == 0 {
        Some(Reliability::Unreliable)
    } else if v == 1 {
        Some(Reliability::UnreliableSequenced)
    } else if v == 2 {
        Some(Reliability::Reliable)
    } else if v == 3 {
        Some(Reliability::ReliableOrdered)
    } else if v == 4 {
        Some(Reliability::ReliableSequenced)
    } else if v == 5 {
        Some(Reliability::UnreliableAckReceipt)
    } else if v == 6 {
        Some(Reliability::ReliableAckReceipt)
    } else if v == 7 {
        Some(Reliability::ReliableOrderedAckReceipt)
    } else {
        None
    }
}

/// Whether a reliability carries a reliable index and must be acknowledged.
pub open spec fn reliable(r: Reliability) -> bool {
    r is Reliable || r is ReliableOrdered || r is ReliableSequenced || r is ReliableAckReceipt
        || r is ReliableOrderedAckReceipt
}

/// Whether a reliability carries a sequence index.
pub open spec fn sequenced(r: Reliability) -> bool {
    r is UnreliableSequenced || r is ReliableSequenced
}

/// Whether a reliability carries an order index and channel.
pub open spec fn ordered(r: Reliability) -> bool {
    sequenced(r) || r is ReliableOrdered || r is ReliableOrderedAckReceipt
}

impl Reliability {
    /// Parses the top 3 bits of a frame's flag byte.
    pub fn from_flags(flags: u8) -> (r: Option<Self>)
        ensures
            r == reliability_of(flags >> 5u8),
            r is Some,
    {
        let v = flags >> 5u8;
        assert(v < 8) by (bit_vector)
            requires
                v == flags >> 5u8,
        ;
        if v == 0 {
            Some(Reliability::Unreliable)
        } else if v == 1 {
            Some(Reliability::UnreliableSequenced)
        } else if v == 2 {
            Some(Reliability::Reliable)
        } else if v == 3 {
            Some(Reliability::ReliableOrdered)
        } else if v == 4 {
            Some(Reliability::ReliableSequenced)
        } else if v == 5 {
            Some(Reliability::UnreliableAckReceipt)
        } else if v == 6 {
            Some(Reliability::ReliableAckReceipt)
        } else {
            Some(Reliability::ReliableOrderedAckReceipt)
        }
    }

    /// The reliability's number on the wire.
    pub fn value(self) -> (v: u8)
        ensures
            v == reliability_value(self),
    {
        match self {
            Reliability::Unreliable => 0,
            Reliability::UnreliableSequenced => 1,
            Reliability::Reliable => 2,
            Reliability::ReliableOrdered => 3,
            Reliability::ReliableSequenced => 4,
            Reliability::UnreliableAckReceipt => 5,
            Reliability::ReliableAckReceipt => 6,
            Reliability::ReliableOrderedAckReceipt => 7,
        }
    }

    /// Carries a reliable index, and must be acknowledged.
    pub fn is_reliable(self) -> (b: bool)
        ensures
            b == reliable(self),
    {
        match self {
            Reliability::Reliable | Reliability::ReliableOrdered | Reliability::ReliableSequenced
            | Reliability::ReliableAckReceipt | Reliability::ReliableOrderedAckReceipt => true,
            _ => false,
        }
    }

    /// Carries a sequence index.
    pub fn is_sequenced(self) -> (b: bool)
        ensures
            b == sequenced(self),
    {
        match self {
            Reliability::UnreliableSequenced | Reliability::ReliableSequenced => true,
            _ => false,
        }
    }

    /// Carries an order index and channel.
    pub fn is_ordered(self) -> (b: bool)
        ensures
            b == ordered(self),
    {
        self.is_sequenced() || match self {
            Reliability::ReliableOrdered | Reliability::ReliableOrderedAckReceipt => true,
            _ => false,
        }
    }
}

/// Every reliability survives a trip through the flag byte.
pub proof fn lemma_reliability_round_trip(r: Reliability, split: bool)
    ensures
        reliability_of(((reliability_value(r) << 5u8) | (if split {
            SPLIT_FLAG
        } else {
            0u8
        })) >> 5u8) == Some(r),
{
    let v = reliability_value(r);
    assert(v < 8);
    assert(((v << 5u8) | 0x10u8) >> 5u8 == v) by (bit_vector)
        requires
            v < 8,
    ;
    assert(((v << 5u8) | 0u8) >> 5u8 == v) by (bit_vector)
        requires
            v < 8,
    ;
}

/// Position of one fragment within a split payload.
#[derive(Debug, Clone, Copy, PartialEq, Eq, Structural)]
pub struct Split {
    /// How many fragments the payload was cut into.
    pub count: u32,
    /// Identifies the payload these fragments belong to.
    pub id: u16,
    /// This fragment's position, from zero.
    pub index: u32,
}

/// A frame as the contracts see it: reliability, reliable index, sequence index,
/// order index, order channel, split position, payload.
pub type FrameView = (Reliability, u32, u32, u32, u8, Option<Split>, Seq<u8>);

/// One frame.
#[derive(Debug, Clone)]
pub struct Frame {
    /// Delivery guarantee.
    pub reliability: Reliability,
    /// Retransmission counter; meaningful when reliable.
    pub reliable_index: u32,
    /// Sequencing counter; meaningful when sequenced.
    pub sequence_index: u32,
    /// Ordering counter; meaningful when ordered.
    pub order_index: u32,
    /// Ordering channel; meaningful when ordered.
    pub order_channel: u8,
    /// Set when this frame is one fragment of a larger payload.
    pub split: Option<Split>,
    /// The bytes being carried.
    pub payload: Vec<u8>,
}

impl View for Frame {
    type V = FrameView;

    open spec fn view(&self) -> FrameView {
        (
            self.reliability,
            self.reliable_index,
            self.sequence_index,
            self.order_index,
            self.order_channel,
            self.split,
            self.payload@,
        )
    }
}

/// Why a frame did not decode.
#[derive(Debug, Clone, PartialEq, Eq, Structural)]
pub enum FrameError {
    /// The buffer ended early.
    Truncated(DecodeError),
    /// The body length was zero.
    EmptyBody,
}

/// Header bytes for a reliability, excluding the payload.
pub open spec fn header_len_spec(r: Reliability, split: bool) -> nat {
    3 + (if reliable(r) {
        3nat
    } else {
        0nat
    }) + (if sequenced(r) {
        3nat
    } else {
        0nat
    }) + (if ordered(r) {
        4nat
    } else {
        0nat
    }) + (if split {
        10nat
    } else {
        0nat
    })
}

/// The flag byte of a frame.
pub open spec fn flags_of(r: Reliability, split: bool) -> u8 {
    (reliability_value(r) << 5u8) | (if split {
        SPLIT_FLAG
    } else {
        0u8
    })
}

/// The length field of a payload of `n` bytes: its size in bits, saturating.
pub open spec fn bits_of(n: nat) -> u16 {
    if n * 8 <= u16::MAX {
        (n * 8) as u16
    } else {
        u16::MAX
    }
}

/// The flag byte and bit length that open a frame.
pub open spec fn frame_head(f: FrameView) -> Seq<u8> {
    seq![flags_of(f.0, f.5 is Some)] + be16(bits_of(f.6.len()))
}

/// The counters and channel a frame's reliability carries.
pub open spec fn frame_counters(f: FrameView) -> Seq<u8> {
    (if reliable(f.0) {
        le24(f.1)
    } else {
        Seq::empty()
    }) + (if sequenced(f.0) {
        le24(f.2)
    } else {
        Seq::empty()
    }) + (if ordered(f.0) {
        le24(f.3).push(f.4)
    } else {
        Seq::empty()
    })
}

/// The split position, when the frame is a fragment.
pub open spec fn frame_split(f: FrameView) -> Seq<u8> {
    match f.5 {
        Some(sp) => be32(sp.count) + be16(sp.id) + be32(sp.index),
        None => Seq::empty(),
    }
}

/// A frame on the wire.
pub open spec fn frame_bytes(f: FrameView) -> Seq<u8> {
    frame_head(f) + frame_counters(f) + frame_split(f) + f.6
}

/// A step of a frame read: a value and the position after it, or an error and the
/// position where the failing read started.
pub type Step<T> = Result<(T, nat), (FrameError, nat)>;

/// Reads an optional 24-bit counter at `p`.
pub open spec fn counter_at(s: Seq<u8>, p: nat, present: bool) -> Step<u32> {
    if !present {
        Ok((0, p))
    } else if s.len() < p + 3 {
        Err((FrameError::Truncated(short(3, s.skip(p as int))), p))
    } else {
        Ok((le24_value(s.skip(p as int)), p + 3))
    }
}

/// Reads an optional order channel at `p`.
pub open spec fn channel_at(s: Seq<u8>, p: nat, present: bool) -> Step<u8> {
    if !present {
        Ok((0, p))
    } else if s.len() < p + 1 {
        Err((FrameError::Truncated(short(1, s.skip(p as int))), p))
    } else {
        Ok((s[p as int], p + 1))
    }
}

/// Reads an optional split position at `p`.
pub open spec fn split_at(s: Seq<u8>, p: nat, present: bool) -> Step<Option<Split>> {
    if !present {
        Ok((None, p))
    } else if s.len() < p + 4 {
        Err((FrameError::Truncated(short(4, s.skip(p as int))), p))
    } else if s.len() < p + 6 {
        Err((FrameError::Truncated(short(2, s.skip(p as int + 4))), p + 4))
    } else if s.len() < p + 10 {
        Err((FrameError::Truncated(short(4, s.skip(p as int + 6))), p + 6))
    } else {
        Ok(
            (
                Some(
                    Split {
                        count: be32_value(s.skip(p as int)),
                        id: be16_value(s.skip(p as int + 4)),
                        index: be32_value(s.skip(p as int + 6)),
                    },
                ),
                p + 10,
            ),
        )
    }
}

/// What reading one frame off the front of `s` yields: the frame and the bytes it
/// occupied, or why it failed and how far the read got.
pub open spec fn frame_read(s: Seq<u8>) -> Step<FrameView> {
    if s.len() < 1 {
        Err((FrameError::Truncated(short(1, s)), 0))
    } else if s.len() < 3 {
        Err((FrameError::Truncated(short(2, s.skip(1))), 1))
    } else if be16_value(s.skip(1)) == 0 {
        Err((FrameError::EmptyBody, 3))
    } else {
        let r = match reliability_of(s[0] >> 5u8) {
            Some(r) => r,
            None => Reliability::Unreliable,
        };
        let len = ((be16_value(s.skip(1)) + 7) / 8) as nat;
        match counter_at(s, 3, reliable(r)) {
            Err(e) => Err(e),
            Ok((ri, p1)) => match counter_at(s, p1, sequenced(r)) {
                Err(e) => Err(e),
                Ok((si, p2)) => match counter_at(s, p2, ordered(r)) {
                    Err(e) => Err(e),
                    Ok((oi, p3)) => match channel_at(s, p3, ordered(r)) {
                        Err(e) => Err(e),
                        Ok((oc, p4)) => match split_at(s, p4, s[0] & SPLIT_FLAG != 0) {
                            Err(e) => Err(e),
                            Ok((sp, p5)) => if s.len() < p5 + len {
                                Err((FrameError::Truncated(short(len, s.skip(p5 as int))), p5))
                            } else {
                                Ok(((r, ri, si, oi, oc, sp, s.subrange(p5 as int, p5 as int + len)), p5 + len))
                            },
                        },
                    },
                },
            },
        }
    }
}

/// Exactly the reliabilities numbered 2, 3, 4, 6 and 7 on the wire are reliable: those
/// carry a reliable index and must be acknowledged.
pub proof fn lemma_reliable_by_number(r: Reliability)
    ensures
        reliable(r) <==> (reliability_value(r) == 2 || reliability_value(r) == 3 || reliability_value(r) == 4
            || reliability_value(r) == 6 || reliability_value(r) == 7),
{
}

/// Reading a frame whose flag byte is numbered 2, 3, 4, 6 or 7 takes its reliable
/// index from the three bytes after the length field, so the frame occupies at least
/// six bytes; a frame numbered 0, 1 or 5 carries no reliable index.
pub proof fn lemma_reliable_index_read(s: Seq<u8>)
    requires
        frame_read(s) is Ok,
    ensures
        ({
            let (f, n) = frame_read(s)->Ok_0;
            let v = s[0] >> 5u8;
            &&& (v == 2 || v == 3 || v == 4 || v == 6 || v == 7) ==> f.1 == le24_value(s.skip(3)) && n >= 6
            &&& (v == 0 || v == 1 || v == 5) ==> f.1 == 0
        }),
{
    let b = s[0];
    assert((b >> 5u8) < 8) by (bit_vector);
}

/// Writing a frame numbered 2, 3, 4, 6 or 7 puts its reliable index in the three bytes
/// after the length field.
pub proof fn lemma_reliable_index_written(f: FrameView)
    requires
        reliability_value(f.0) == 2 || reliability_value(f.0) == 3 || reliability_value(f.0) == 4
            || reliability_value(f.0) == 6 || reliability_value(f.0) == 7,
    ensures
        frame_bytes(f).subrange(3, 6) == le24(f.1),
{
    let b = frame_bytes(f);
    assert(frame_head(f).len() == 3);
    assert(frame_counters(f).subrange(0, 3) =~= le24(f.1));
    assert(b.subrange(3, 6) =~= frame_counters(f).subrange(0, 3));
}

/// A frame with the fields its reliability does not carry cleared: what a decode of its
/// encoding gives back.
pub open spec fn carried(f: FrameView) -> FrameView {
    (
        f.0,
        if reliable(f.0) {
            f.1
        } else {
            0
        },
        if sequenced(f.0) {
            f.2
        } else {
            0
        },
        if ordered(f.0) {
            f.3
        } else {
            0
        },
        if ordered(f.0) {
            f.4
        } else {
            0
        },
        f.5,
        f.6,
    )
}

/// Whether a frame's fields fit what the wire carries: a payload whose bit count fits
/// the length field and is not zero, and 24-bit counters.
pub open spec fn encodable(f: FrameView) -> bool {
    &&& 1 <= f.6.len() <= 8191
    &&& f.1 < 0x100_0000
    &&& f.2 < 0x100_0000
    &&& f.3 < 0x100_0000
}

/// The flag byte of a frame.
fn flag_byte(r: Reliability, split: bool) -> (b: u8)
    ensures
        b == flags_of(r, split),
{
    let v = r.value();
    if split {
        (v << 5u8) | SPLIT_FLAG
    } else {
        (v << 5u8) | 0u8
    }
}

/// Appends the counters and channel a frame's reliability carries.
fn write_counters(w: &mut Writer, f: &Frame)
    ensures
        final(w)@ == old(w)@ + frame_counters(f@),
{
    if f.reliability.is_reliable() {
        w.u24(f.reliable_index);
    }
    let ghost a = w@;
    if f.reliability.is_sequenced() {
        w.u24(f.sequence_index);
    }
    let ghost b = w@;
    if f.reliability.is_ordered() {
        w.u24(f.order_index).u8(f.order_channel);
    }
    proof {
        assert(w@ =~= old(w)@ + frame_counters(f@));
    }
}

/// Reads an optional 24-bit counter, the reader standing at `p` of `s`.
fn read_counter(r: &mut Reader, present: bool, Ghost(s): Ghost<Seq<u8>>, Ghost(p): Ghost<nat>) -> (res: Result<u32, FrameError>)
    requires
        p <= s.len(),
        old(r)@ == s.skip(p as int),
    ensures
        match counter_at(s, p, present) {
            Ok((v, q)) => res == Ok::<u32, FrameError>(v) && final(r)@ == s.skip(q as int) && q <= s.len(),
            Err((e, q)) => res == Err::<u32, FrameError>(e) && final(r)@ == s.skip(q as int),
        },
{
    if !present {
        return Ok(0);
    }
    match r.u24() {
        Ok(v) => {
            proof {
                assert(s.skip(p as int).skip(3) =~= s.skip(p as int + 3));
            }
            Ok(v)
        },
        Err(e) => Err(FrameError::Truncated(e)),
    }
}

/// Reads an optional order channel, the reader standing at `p` of `s`.
fn read_channel(r: &mut Reader, present: bool, Ghost(s): Ghost<Seq<u8>>, Ghost(p): Ghost<nat>) -> (res: Result<u8, FrameError>)
    requires
        p <= s.len(),
        old(r)@ == s.skip(p as int),
    ensures
        match channel_at(s, p, present) {
            Ok((v, q)) => res == Ok::<u8, FrameError>(v) && final(r)@ == s.skip(q as int) && q <= s.len(),
            Err((e, q)) => res == Err::<u8, FrameError>(e) && final(r)@ == s.skip(q as int),
        },
{
    if !present {
        return Ok(0);
    }
    match r.u8() {
        Ok(v) => {
            proof {
                assert(s.skip(p as int).skip(1) =~= s.skip(p as int + 1));
                assert(s.skip(p as int)[0] == s[p as int]);
            }
            Ok(v)
        },
        Err(e) => Err(FrameError::Truncated(e)),
    }
}

/// Reads an optional split position, the reader standing at `p` of `s`.
fn read_split(r: &mut Reader, present: bool, Ghost(s): Ghost<Seq<u8>>, Ghost(p): Ghost<nat>) -> (res: Result<Option<Split>, FrameError>)
    requires
        p <= s.len(),
        old(r)@ == s.skip(p as int),
    ensures
        match split_at(s, p, present) {
            Ok((v, q)) => res == Ok::<Option<Split>, FrameError>(v) && final(r)@ == s.skip(q as int) && q <= s.len(),
            Err((e, q)) => res == Err::<Option<Split>, FrameError>(e) && final(r)@ == s.skip(q as int),
        },
{
    if !present {
        return Ok(None);
    }
    let count = match r.u32() {
        Ok(v) => v,
        Err(e) => return Err(FrameError::Truncated(e)),
    };
    proof {
        assert(s.skip(p as int).skip(4) =~= s.skip(p as int + 4));
    }
    let id = match r.u16() {
        Ok(v) => v,
        Err(e) => return Err(FrameError::Truncated(e)),
    };
    proof {
        assert(s.skip(p as int + 4).skip(2) =~= s.skip(p as int + 6));
    }
    let index = match r.u32() {
        Ok(v) => v,
        Err(e) => return Err(FrameError::Truncated(e)),
    };
    proof {
        assert(s.skip(p as int + 6).skip(4) =~= s.skip(p as int + 10));
    }
    Ok(Some(Split { count, id, index }))
}

impl Frame {
    /// A frame carrying `payload` with no ordering or splitting applied.
    pub fn new(reliability: Reliability, payload: Vec<u8>) -> (f: Self)
        ensures
            f@ == (reliability, 0u32, 0u32, 0u32, 0u8, None::<Split>, payload@),
    {
        Frame {
            reliability,
            reliable_index: 0,
            sequence_index: 0,
            order_index: 0,
            order_channel: 0,
            split: None,
            payload,
        }
    }

    /// Bytes this frame occupies once encoded.
    pub fn encoded_len(&self) -> (n: usize)
        requires
            self.payload@.len() + 26 <= usize::MAX,
        ensures
            n == header_len_spec(self.reliability, self.split is Some) + self.payload@.len(),
    {
        Frame::header_len(self.reliability, self.split.is_some()) + self.payload.len()
    }

    /// Header bytes for `reliability`, excluding the payload.
    pub fn header_len(reliability: Reliability, split: bool) -> (n: usize)
        ensures
            n == header_len_spec(reliability, split),
            n <= 26,
    {
        let mut n: usize = 1 + 2;
        if reliability.is_reliable() {
            n += 3;
        }
        if reliability.is_sequenced() {
            n += 3;
        }
        if reliability.is_ordered() {
            n += 4;
        }
        if split {
            n += 10;
        }
        n
    }

    /// Appends this frame.
    pub fn encode(&self, w: &mut Writer)
        ensures
            final(w)@ == old(w)@ + frame_bytes(self@),
    {
        let flags = flag_byte(self.reliability, self.split.is_some());
        let len = self.payload.len();
        let bits: u16 = if len <= 8191 {
            (len * 8) as u16
        } else {
            u16::MAX
        };
        w.u8(flags).u16(bits);
        proof {
            assert(w@ =~= old(w)@ + frame_head(self@));
        }
        let ghost head = w@;
        write_counters(w, self);
        let ghost mid = w@;
        match self.split {
            Some(sp) => {
                w.u32(sp.count).u16(sp.id).u32(sp.index);
            },
            None => {},
        }
        proof {
            assert(w@ =~= mid + frame_split(self@));
        }
        w.bytes(self.payload.as_slice());
        proof {
            assert(w@ =~= old(w)@ + frame_bytes(self@));
        }
    }

    /// Reads one frame, leaving the reader positioned at the next. A bit count that is
    /// not a whole number of bytes rounds up; a length longer than the buffer fails
    /// before anything is allocated.
    #[verifier::spinoff_prover]
    #[verifier::rlimit(30)]
    pub fn decode(r: &mut Reader) -> (res: Result<Self, FrameError>)
        ensures
            match frame_read(old(r)@) {
                Ok((f, n)) => res matches Ok(g) && g@ == f && final(r)@ == old(r)@.skip(n as int),
                Err((e, n)) => res == Err::<Frame, FrameError>(e) && final(r)@ == old(r)@.skip(n as int),
            },
    {
        let ghost s = r@;
        let flags = match r.u8() {
            Ok(b) => b,
            Err(e) => {
                proof {
                    assert(r@ =~= s.skip(0));
                }
                return Err(FrameError::Truncated(e));
            },
        };
        let reliability = match Reliability::from_flags(flags) {
            Some(x) => x,
            None => Reliability::Unreliable,
        };
        let is_split = flags & SPLIT_FLAG != 0;
        let bits = match r.u16() {
            Ok(b) => b,
            Err(e) => return Err(FrameError::Truncated(e)),
        };
        proof {
            assert(s.skip(1).skip(2) =~= s.skip(3));
        }
        if bits == 0 {
            return Err(FrameError::EmptyBody);
        }
        let len: usize = ((bits as u32 + 7) / 8) as usize;
        let reliable_index = match read_counter(r, reliability.is_reliable(), Ghost(s), Ghost(3)) {
            Ok(v) => v,
            Err(e) => return Err(e),
        };
        let ghost p1: nat = match counter_at(s, 3, reliable(reliability)) {
            Ok((_, q)) => q,
            Err(_) => 0,
        };
        let sequence_index = match read_counter(r, reliability.is_sequenced(), Ghost(s), Ghost(p1)) {
            Ok(v) => v,
            Err(e) => return Err(e),
        };
        let ghost p2: nat = match counter_at(s, p1, sequenced(reliability)) {
            Ok((_, q)) => q,
            Err(_) => 0,
        };
        let order_index = match read_counter(r, reliability.is_ordered(), Ghost(s), Ghost(p2)) {
            Ok(v) => v,
            Err(e) => return Err(e),
        };
        let ghost p3: nat = match counter_at(s, p2, ordered(reliability)) {
            Ok((_, q)) => q,
            Err(_) => 0,
        };
        let order_channel = match read_channel(r, reliability.is_ordered(), Ghost(s), Ghost(p3)) {
            Ok(v) => v,
            Err(e) => return Err(e),
        };
        let ghost p4: nat = match channel_at(s, p3, ordered(reliability)) {
            Ok((_, q)) => q,
            Err(_) => 0,
        };
        let split = match read_split(r, is_split, Ghost(s), Ghost(p4)) {
            Ok(v) => v,
            Err(e) => return Err(e),
        };
        let ghost p: nat = match split_at(s, p4, s[0] & SPLIT_FLAG != 0) {
            Ok((_, q)) => q,
            Err(_) => 0,
        };
        let body = match r.bytes(len) {
            Ok(b) => b,
            Err(e) => return Err(FrameError::Truncated(e)),
        };
        let mut payload: Vec<u8> = Vec::new();
        let mut i: usize = 0;
        while i < body.len()
            invariant
                i <= body@.len(),
                payload@ == body@.take(i as int),
            decreases body@.len() - i,
        {
            payload.push(body[i]);
            proof {
                assert(body@.take(i + 1) =~= body@.take(i as int).push(body@[i as int]));
            }
            i = i + 1;
        }
        proof {
            assert(body@.take(i as int) =~= body@);
            assert(s.skip(p as int).take(len as int) =~= s.subrange(p as int, p as int + len));
            assert(s.skip(p as int).skip(len as int) =~= s.skip(p as int + len));
        }
        Ok(
            Frame {
                reliability,
                reliable_index,
                sequence_index,
                order_index,
                order_channel,
                split,
                payload,
            },
        )
    }

    /// Whether two frames carry the same fields.
    pub fn same(&self, other: &Frame) -> (b: bool)
        ensures
            b == (self@ == other@),
    {
        let head = self.reliability == other.reliability && self.reliable_index == other.reliable_index
            && self.sequence_index == other.sequence_index && self.order_index == other.order_index
            && self.order_channel == other.order_channel && self.split == other.split;
        head && crate::blocks::bytes_equal(self.payload.as_slice(), other.payload.as_slice())
    }
}

/// A frame's encoding decodes back to the frame, less the fields its reliability does
/// not carry, and the read stops exactly where the encoding ends.
#[verifier::rlimit(50)]
pub proof fn lemma_frame_round_trip(f: FrameView, rest: Seq<u8>)
    requires
        encodable(f),
    ensures
        frame_read(frame_bytes(f) + rest) == Ok::<(FrameView, nat), (FrameError, nat)>(
            (carried(f), frame_bytes(f).len()),
        ),
{
    let s = frame_bytes(f) + rest;
    let n = f.6.len();
    let head = frame_head(f);
    let counters = frame_counters(f);
    let sp = frame_split(f);
    let tail = f.6 + rest;
    let x = sp + tail;
    let y = counters + x;
    assert(s =~= head + y);
    lemma_concat_parts(frame_bytes(f), rest);
    lemma_head_reads(f, s);
    let c1: nat = if reliable(f.0) {
        3
    } else {
        0
    };
    let c2: nat = if sequenced(f.0) {
        3
    } else {
        0
    };
    let c3: nat = if ordered(f.0) {
        4
    } else {
        0
    };
    lemma_counters_len(f);
    lemma_counter_reads(f, s, rest, c1, c2, c3);
    let p4 = 3 + c1 + c2 + c3;
    lemma_concat_parts(head, y);
    lemma_concat_parts(counters, x);
    assert(s.skip(p4 as int) =~= x);
    lemma_split_reads(f, s, rest, p4);
    let p5 = p4 + sp.len();
    lemma_concat_parts(sp, tail);
    lemma_concat_parts(f.6, rest);
    assert(s.subrange(p5 as int, p5 as int + n) =~= f.6);
    let p3 = 3 + c1 + c2 + (if ordered(f.0) {
        3nat
    } else {
        0nat
    });
    lemma_frame_read_steps(s, f.0, carried(f), n, 3 + c1, 3 + c1 + c2, p3, p4, p5);
}

/// What a concatenation's pieces are, read back from it.
proof fn lemma_concat_parts(a: Seq<u8>, b: Seq<u8>)
    ensures
        (a + b).take(a.len() as int) == a,
        (a + b).skip(a.len() as int) == b,
        (a + b).len() == a.len() + b.len(),
{
    assert((a + b).take(a.len() as int) =~= a);
    assert((a + b).skip(a.len() as int) =~= b);
}

/// How long a frame's counters are.
proof fn lemma_counters_len(f: FrameView)
    ensures
        frame_counters(f).len() == (if reliable(f.0) {
            3nat
        } else {
            0nat
        }) + (if sequenced(f.0) {
            3nat
        } else {
            0nat
        }) + (if ordered(f.0) {
            4nat
        } else {
            0nat
        }),
        frame_head(f).len() == 3,
{
}

/// A read whose every step succeeds yields the frame the steps read.
proof fn lemma_frame_read_steps(
    s: Seq<u8>,
    r: Reliability,
    g: FrameView,
    len: nat,
    p1: nat,
    p2: nat,
    p3: nat,
    p4: nat,
    p5: nat,
)
    requires
        s.len() >= 3,
        be16_value(s.skip(1)) != 0,
        reliability_of(s[0] >> 5u8) == Some(r),
        ((be16_value(s.skip(1)) + 7) / 8) as nat == len,
        g.0 == r,
        counter_at(s, 3, reliable(r)) == Ok::<(u32, nat), (FrameError, nat)>((g.1, p1)),
        counter_at(s, p1, sequenced(r)) == Ok::<(u32, nat), (FrameError, nat)>((g.2, p2)),
        counter_at(s, p2, ordered(r)) == Ok::<(u32, nat), (FrameError, nat)>((g.3, p3)),
        channel_at(s, p3, ordered(r)) == Ok::<(u8, nat), (FrameError, nat)>((g.4, p4)),
        split_at(s, p4, s[0] & SPLIT_FLAG != 0) == Ok::<(Option<Split>, nat), (FrameError, nat)>(
            (g.5, p5),
        ),
        s.len() >= p5 + len,
        s.subrange(p5 as int, p5 as int + len) == g.6,
    ensures
        frame_read(s) == Ok::<(FrameView, nat), (FrameError, nat)>((g, p5 + len)),
{
}

/// The flag byte and length of an encoded frame read back as written.
proof fn lemma_head_reads(f: FrameView, s: Seq<u8>)
    requires
        encodable(f),
        s.len() >= frame_bytes(f).len(),
        s.take(frame_bytes(f).len() as int) == frame_bytes(f),
    ensures
        s.len() >= 3,
        be16_value(s.skip(1)) == f.6.len() * 8,
        ((be16_value(s.skip(1)) + 7) / 8) as nat == f.6.len(),
        reliability_of(s[0] >> 5u8) == Some(f.0),
        (s[0] & SPLIT_FLAG != 0) == (f.5 is Some),
{
    let split = f.5 is Some;
    let bits = bits_of(f.6.len());
    let v = reliability_value(f.0);
    lemma_reliability_round_trip(f.0, split);
    assert(s[0] == s.take(frame_bytes(f).len() as int)[0]);
    assert(s[1] == s.take(frame_bytes(f).len() as int)[1]);
    assert(s[2] == s.take(frame_bytes(f).len() as int)[2]);
    assert(s.skip(1)[0] == be16(bits)[0] && s.skip(1)[1] == be16(bits)[1]);
    crate::num::lemma_fixed_width_round_trip(bits, 0, 0);
    assert(be16_value(s.skip(1)) == be16_value(be16(bits)));
    assert(((v << 5u8) | 0x10u8) & 0x10u8 != 0) by (bit_vector);
    assert(((v << 5u8) | 0u8) & 0x10u8 == 0) by (bit_vector)
        requires
            v < 8,
    ;
}

/// The split position of an encoded frame reads back as written.
proof fn lemma_split_reads(f: FrameView, s: Seq<u8>, rest: Seq<u8>, p4: nat)
    requires
        p4 <= s.len(),
        s.skip(p4 as int) == frame_split(f) + (f.6 + rest),
    ensures
        split_at(s, p4, f.5 is Some) == Ok::<(Option<Split>, nat), (FrameError, nat)>(
            (f.5, p4 + frame_split(f).len()),
        ),
{
    match f.5 {
        Some(x) => {
            let t = s.skip(p4 as int);
            let u = be32(x.count) + be16(x.id) + be32(x.index);
            crate::num::lemma_fixed_width_round_trip(x.id, x.count, 0);
            crate::num::lemma_fixed_width_round_trip(0, x.index, 0);
            assert(t.take(4) =~= be32(x.count));
            assert(be32_value(t) == be32_value(be32(x.count)));
            assert(s.skip(p4 as int + 4) =~= t.skip(4));
            assert(t.skip(4).take(2) =~= u.subrange(4, 6));
            assert(u.subrange(4, 6) =~= be16(x.id));
            assert(be16_value(s.skip(p4 as int + 4)) == be16_value(be16(x.id)));
            assert(s.skip(p4 as int + 6) =~= t.skip(6));
            assert(t.skip(6).take(4) =~= u.subrange(6, 10));
            assert(u.subrange(6, 10) =~= be32(x.index));
            assert(be32_value(s.skip(p4 as int + 6)) == be32_value(be32(x.index)));
        },
        None => {},
    }
}

/// The counters of an encoded frame read back as written.
proof fn lemma_counter_reads(f: FrameView, s: Seq<u8>, rest: Seq<u8>, c1: nat, c2: nat, c3: nat)
    requires
        encodable(f),
        s == frame_head(f) + (frame_counters(f) + (frame_split(f) + (f.6 + rest))),
        c1 == (if reliable(f.0) {
            3nat
        } else {
            0nat
        }),
        c2 == (if sequenced(f.0) {
            3nat
        } else {
            0nat
        }),
        c3 == (if ordered(f.0) {
            4nat
        } else {
            0nat
        }),
    ensures
        counter_at(s, 3, reliable(f.0)) == Ok::<(u32, nat), (FrameError, nat)>((carried(f).1, 3 + c1)),
        counter_at(s, 3 + c1, sequenced(f.0)) == Ok::<(u32, nat), (FrameError, nat)>(
            (carried(f).2, 3 + c1 + c2),
        ),
        counter_at(s, 3 + c1 + c2, ordered(f.0)) == Ok::<(u32, nat), (FrameError, nat)>(
            (carried(f).3, 3 + c1 + c2 + (if ordered(f.0) {
                3nat
            } else {
                0nat
            })),
        ),
        channel_at(s, 3 + c1 + c2 + (if ordered(f.0) {
            3nat
        } else {
            0nat
        }), ordered(f.0)) == Ok::<(u8, nat), (FrameError, nat)>((carried(f).4, 3 + c1 + c2 + c3)),
{
    crate::num::lemma_fixed_width_round_trip(0, f.1, 0);
    let a = f.1;
    let b = f.2;
    let c = f.3;
    assert(le24_value(le24(a)) == a) by {
        crate::num::lemma_fixed_width_round_trip(0, a, 0);
    }
    assert(le24_value(le24(b)) == b) by {
        crate::num::lemma_fixed_width_round_trip(0, b, 0);
    }
    assert(le24_value(le24(c)) == c) by {
        crate::num::lemma_fixed_width_round_trip(0, c, 0);
    }
    let base = s.skip(3);
    if reliable(f.0) {
        assert(s.skip(3).take(3) =~= le24(a));
        assert(le24_value(s.skip(3)) == le24_value(le24(a)));
    }
    if sequenced(f.0) {
        assert(s.skip((3 + c1) as int).take(3) =~= le24(b));
        assert(le24_value(s.skip((3 + c1) as int)) == le24_value(le24(b)));
    }
    if ordered(f.0) {
        assert(s.skip((3 + c1 + c2) as int).take(3) =~= le24(c));
        assert(le24_value(s.skip((3 + c1 + c2) as int)) == le24_value(le24(c)));
        assert(s[(3 + c1 + c2 + 3) as int] == f.4);
    }
}

impl PartialEq for Frame {
    fn eq(&self, other: &Frame) -> (r: bool) {
        self.same(other)
    }
}

impl vstd::std_specs::cmp::PartialEqSpecImpl for Frame {
    open spec fn obeys_eq_spec() -> bool {
        true
    }

    open spec fn eq_spec(&self, other: &Frame) -> bool {
        self@ == other@
    }
}

impl Eq for Frame {

}

} // verus!
