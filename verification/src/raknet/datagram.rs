//! Datagrams: what goes in a UDP packet once a connection is open.
//!
//! The first byte decides which of three things it is. Bit `0x80` marks anything in
//! this layer; `0x40` means ACK, `0x20` means NACK, and neither means a frame set.
//!
//! ```text
//! frame set   u8 flags | u24le sequence | frames until the end
//! ack / nack  u8 flags | u16 record count | records
//! record      u8 is_single | u24le start | u24le end   (end omitted when single)
//! ```
//!
//! Acknowledgement ranges are kept as ranges: one record can span sixteen million
//! sequence numbers, and nothing here pre-allocates from the record count.
use crate::num::{be16, be16_value, le24, le24_value};
use crate::raknet::frame::{carried, encodable, frame_bytes, frame_read, lemma_frame_round_trip, Frame, FrameError, FrameView};
use crate::raknet::wire::{short, DecodeError, Reader, Writer};
use vstd::prelude::*;

verus! {

/// Bytes a frame set spends before its first frame: the flag byte and the sequence
/// number.
pub const DATAGRAM_HEADER_LEN: usize = 4;

/// Marks a connected-phase datagram.
pub const FLAG_VALID: u8 = 0x80;

/// Marks an acknowledgement.
pub const FLAG_ACK: u8 = 0x40;

/// Marks a negative acknowledgement.
pub const FLAG_NACK: u8 = 0x20;

/// A run of acknowledged or missing sequence numbers.
#[derive(Debug, Clone)]
pub struct Acknowledgement {
    /// Inclusive ranges, in the order the peer sent them.
    pub ranges: Vec<(u32, u32)>,
}

/// Whether a sequence number falls in any of the ranges.
pub open spec fn covered(ranges: Seq<(u32, u32)>, sequence: u32) -> bool {
    exists|i: int| 0 <= i < ranges.len() && (#[trigger] ranges[i]).0 <= sequence <= ranges[i].1
}

/// One record on the wire.
pub open spec fn record_bytes(r: (u32, u32)) -> Seq<u8> {
    if r.0 == r.1 {
        seq![1u8] + le24(r.0)
    } else {
        seq![0u8] + le24(r.0) + le24(r.1)
    }
}

/// Records on the wire, back to back.
pub open spec fn records_bytes(ranges: Seq<(u32, u32)>) -> Seq<u8>
    decreases ranges.len(),
{
    if ranges.len() == 0 {
        Seq::empty()
    } else {
        record_bytes(ranges[0]) + records_bytes(ranges.drop_first())
    }
}

/// Records appended one after another make the records' encoding.
proof fn lemma_records_bytes_push(ranges: Seq<(u32, u32)>, r: (u32, u32))
    ensures
        records_bytes(ranges.push(r)) == records_bytes(ranges) + record_bytes(r),
    decreases ranges.len(),
{
    if ranges.len() == 0 {
        assert(ranges.push(r).drop_first() =~= Seq::<(u32, u32)>::empty());
        assert(ranges.push(r)[0] == r);
        assert(records_bytes(Seq::<(u32, u32)>::empty()) == Seq::<u8>::empty());
        assert(records_bytes(ranges.push(r)) =~= record_bytes(r));
    } else {
        assert(ranges.push(r).drop_first() =~= ranges.drop_first().push(r));
        lemma_records_bytes_push(ranges.drop_first(), r);
        assert(records_bytes(ranges.push(r)) =~= records_bytes(ranges) + record_bytes(r));
    }
}

/// How many records an acknowledgement declares: all of them, up to what a `u16` counts.
pub open spec fn record_count(n: nat) -> u16 {
    if n <= u16::MAX {
        n as u16
    } else {
        u16::MAX
    }
}

/// An acknowledgement on the wire, after its flag byte.
pub open spec fn ack_body(ranges: Seq<(u32, u32)>) -> Seq<u8> {
    be16(record_count(ranges.len())) + records_bytes(ranges.take(record_count(ranges.len()) as int))
}

/// Why a datagram did not decode.
#[derive(Debug, Clone, PartialEq, Eq, Structural)]
pub enum DatagramError {
    /// The buffer ended early.
    Truncated(DecodeError),
    /// The high bit was clear, so this is not connected-phase traffic.
    NotConnected(u8),
    /// A frame inside the datagram did not decode.
    Frame(FrameError),
}

/// Reads `n` records off the front of `s`.
pub open spec fn records_read(s: Seq<u8>, n: nat) -> Result<Seq<(u32, u32)>, DatagramError>
    decreases n,
{
    if n == 0 {
        Ok(Seq::empty())
    } else if s.len() < 1 {
        Err(DatagramError::Truncated(short(1, s)))
    } else if s[0] == 1 {
        if s.len() < 4 {
            Err(DatagramError::Truncated(short(3, s.skip(1))))
        } else {
            let v = le24_value(s.skip(1));
            match records_read(s.skip(4), (n - 1) as nat) {
                Ok(rest) => Ok(seq![(v, v)] + rest),
                Err(e) => Err(e),
            }
        }
    } else if s.len() < 4 {
        Err(DatagramError::Truncated(short(3, s.skip(1))))
    } else if s.len() < 7 {
        Err(DatagramError::Truncated(short(3, s.skip(4))))
    } else {
        let a = le24_value(s.skip(1));
        let b = le24_value(s.skip(4));
        match records_read(s.skip(7), (n - 1) as nat) {
            Ok(rest) => Ok(seq![(a, b)] + rest),
            Err(e) => Err(e),
        }
    }
}

/// Reads an acknowledgement's body off the front of `s`.
pub open spec fn ack_read(s: Seq<u8>) -> Result<Seq<(u32, u32)>, DatagramError> {
    if s.len() < 2 {
        Err(DatagramError::Truncated(short(2, s)))
    } else {
        records_read(s.skip(2), be16_value(s) as nat)
    }
}

/// Reads frames until `s` runs out.
pub open spec fn frames_read(s: Seq<u8>) -> Result<Seq<FrameView>, FrameError>
    decreases s.len(),
{
    if s.len() == 0 {
        Ok(Seq::empty())
    } else {
        match frame_read(s) {
            Err((e, _)) => Err(e),
            Ok((f, n)) => if n == 0 || n > s.len() {
                Ok(Seq::empty())
            } else {
                match frames_read(s.skip(n as int)) {
                    Ok(rest) => Ok(seq![f] + rest),
                    Err(e) => Err(e),
                }
            },
        }
    }
}

/// Frames on the wire, back to back.
pub open spec fn frames_bytes(frames: Seq<FrameView>) -> Seq<u8>
    decreases frames.len(),
{
    if frames.len() == 0 {
        Seq::empty()
    } else {
        frame_bytes(frames[0]) + frames_bytes(frames.drop_first())
    }
}

/// A datagram as the contracts see it.
pub enum DatagramView {
    /// A sequence number and frames.
    FrameSet(u32, Seq<FrameView>),
    /// Ranges the peer received.
    Ack(Seq<(u32, u32)>),
    /// Ranges the peer is missing.
    Nack(Seq<(u32, u32)>),
}

/// A datagram on the wire.
pub open spec fn datagram_bytes(d: DatagramView) -> Seq<u8> {
    match d {
        DatagramView::FrameSet(sequence, frames) => seq![FLAG_VALID] + le24(sequence) + frames_bytes(frames),
        DatagramView::Ack(ranges) => seq![FLAG_VALID | FLAG_ACK] + ack_body(ranges),
        DatagramView::Nack(ranges) => seq![FLAG_VALID | FLAG_NACK] + ack_body(ranges),
    }
}

/// What decoding a whole UDP payload yields.
pub open spec fn datagram_read(s: Seq<u8>) -> Result<DatagramView, DatagramError> {
    if s.len() < 1 {
        Err(DatagramError::Truncated(short(1, s)))
    } else if s[0] & FLAG_VALID == 0 {
        Err(DatagramError::NotConnected(s[0]))
    } else if s[0] & FLAG_ACK != 0 {
        match ack_read(s.skip(1)) {
            Ok(r) => Ok(DatagramView::Ack(r)),
            Err(e) => Err(e),
        }
    } else if s[0] & FLAG_NACK != 0 {
        match ack_read(s.skip(1)) {
            Ok(r) => Ok(DatagramView::Nack(r)),
            Err(e) => Err(e),
        }
    } else if s.len() < 4 {
        Err(DatagramError::Truncated(short(3, s.skip(1))))
    } else {
        match frames_read(s.skip(4)) {
            Ok(frames) => Ok(DatagramView::FrameSet(le24_value(s.skip(1)), frames)),
            Err(e) => Err(DatagramError::Frame(e)),
        }
    }
}

impl View for Acknowledgement {
    type V = Seq<(u32, u32)>;

    open spec fn view(&self) -> Seq<(u32, u32)> {
        self.ranges@
    }
}

impl Acknowledgement {
    /// One range covering a single sequence number.
    pub fn single(sequence: u32) -> (a: Self)
        ensures
            a@ == seq![(sequence, sequence)],
    {
        let a = Acknowledgement { ranges: vec![(sequence, sequence)] };
        proof {
            assert(a@ =~= seq![(sequence, sequence)]);
        }
        a
    }

    /// Whether `sequence` falls in any range.
    pub fn contains(&self, sequence: u32) -> (b: bool)
        ensures
            b == covered(self@, sequence),
    {
        let mut i: usize = 0;
        while i < self.ranges.len()
            invariant
                i <= self.ranges@.len(),
                forall|j: int| 0 <= j < i ==> !((#[trigger] self.ranges@[j]).0 <= sequence <= self.ranges@[j].1),
            decreases self.ranges@.len() - i,
        {
            let (start, end) = self.ranges[i];
            if sequence >= start && sequence <= end {
                return true;
            }
            i = i + 1;
        }
        false
    }

    /// Appends this acknowledgement under `flags`.
    fn encode(&self, w: &mut Writer, flags: u8)
        ensures
            final(w)@ == old(w)@ + seq![flags] + ack_body(self@),
    {
        let n = self.ranges.len();
        let count: u16 = if n <= 65535 {
            n as u16
        } else {
            u16::MAX
        };
        w.u8(flags).u16(count);
        let ghost head = w@;
        proof {
            assert(self@.take(0) =~= Seq::<(u32, u32)>::empty());
        }
        let mut i: usize = 0;
        while i < count as usize
            invariant
                i <= count,
                count == record_count(self@.len()),
                count <= self@.len(),
                w@ == head + records_bytes(self@.take(i as int)),
            decreases count - i,
        {
            let (start, end) = self.ranges[i];
            if start == end {
                w.u8(1).u24(start);
            } else {
                w.u8(0).u24(start).u24(end);
            }
            proof {
                assert(self@.take(i + 1) =~= self@.take(i as int).push(self@[i as int]));
                lemma_records_bytes_push(self@.take(i as int), self@[i as int]);
                assert(w@ =~= head + records_bytes(self@.take(i + 1)));
            }
            i = i + 1;
        }
        proof {
            assert(w@ =~= old(w)@ + seq![flags] + ack_body(self@));
        }
    }

    /// Reads an acknowledgement's body.
    fn decode(r: &mut Reader) -> (res: Result<Self, DatagramError>)
        ensures
            match ack_read(old(r)@) {
                Ok(v) => res matches Ok(a) && a@ == v,
                Err(e) => res matches Err(x) && x == e,
            },
    {
        let ghost s = r@;
        let count = match r.u16() {
            Ok(c) => c,
            Err(e) => return Err(DatagramError::Truncated(e)),
        };
        let mut ranges: Vec<(u32, u32)> = Vec::new();
        let mut k: u16 = 0;
        while k < count
            invariant
                k <= count,
                s == old(r)@,
                s.len() >= 2,
                count == be16_value(s),
                ack_read(s) == (match records_read(r@, (count - k) as nat) {
                    Ok(rest) => Ok(ranges@ + rest),
                    Err(e) => Err(e),
                }),
            decreases count - k,
        {
            let ghost t = r@;
            let b = match r.u8() {
                Ok(b) => b,
                Err(e) => return Err(DatagramError::Truncated(e)),
            };
            if b == 1 {
                let v = match r.u24() {
                    Ok(v) => v,
                    Err(e) => return Err(DatagramError::Truncated(e)),
                };
                proof {
                    assert(t.skip(1).skip(3) =~= t.skip(4));
                    let tail = records_read(t.skip(4), (count - k - 1) as nat);
                    match tail {
                        Ok(rest) => assert(ranges@.push((v, v)) + rest =~= ranges@ + (seq![(v, v)] + rest)),
                        Err(_) => {},
                    }
                }
                ranges.push((v, v));
            } else {
                let a = match r.u24() {
                    Ok(v) => v,
                    Err(e) => return Err(DatagramError::Truncated(e)),
                };
                proof {
                    assert(t.skip(1).skip(3) =~= t.skip(4));
                }
                let e2 = match r.u24() {
                    Ok(v) => v,
                    Err(e) => return Err(DatagramError::Truncated(e)),
                };
                proof {
                    assert(t.skip(4).skip(3) =~= t.skip(7));
                    let tail = records_read(t.skip(7), (count - k - 1) as nat);
                    match tail {
                        Ok(rest) => assert(ranges@.push((a, e2)) + rest =~= ranges@ + (seq![(a, e2)] + rest)),
                        Err(_) => {},
                    }
                }
                ranges.push((a, e2));
            }
            k = k + 1;
        }
        proof {
            assert(ranges@ + Seq::<(u32, u32)>::empty() =~= ranges@);
        }
        Ok(Acknowledgement { ranges })
    }

    /// Whether two acknowledgements carry the same ranges.
    pub fn same(&self, other: &Acknowledgement) -> (b: bool)
        ensures
            b == (self@ == other@),
    {
        if self.ranges.len() != other.ranges.len() {
            return false;
        }
        let mut i: usize = 0;
        while i < self.ranges.len()
            invariant
                i <= self.ranges@.len(),
                self.ranges@.len() == other.ranges@.len(),
                forall|j: int| 0 <= j < i ==> self.ranges@[j] == other.ranges@[j],
            decreases self.ranges@.len() - i,
        {
            let (a0, a1) = self.ranges[i];
            let (b0, b1) = other.ranges[i];
            if a0 != b0 || a1 != b1 {
                return false;
            }
            i = i + 1;
        }
        proof {
            assert(self@ =~= other@);
        }
        true
    }
}

/// A sequenced datagram carrying frames.
#[derive(Debug, Clone)]
pub struct FrameSet {
    /// Datagram sequence number, used to build ACK and NACK ranges.
    pub sequence: u32,
    /// Frames packed into this datagram.
    pub frames: Vec<Frame>,
}

/// The views of a list of frames.
pub open spec fn frames_view(frames: Seq<Frame>) -> Seq<FrameView> {
    frames.map_values(|f: Frame| f@)
}

/// One decoded datagram.
#[derive(Debug, Clone)]
pub enum Datagram {
    /// Frames, with a sequence number to acknowledge.
    FrameSet(FrameSet),
    /// The peer received these.
    Ack(Acknowledgement),
    /// The peer is missing these.
    Nack(Acknowledgement),
}

impl View for Datagram {
    type V = DatagramView;

    open spec fn view(&self) -> DatagramView {
        match self {
            Datagram::FrameSet(set) => DatagramView::FrameSet(set.sequence, frames_view(set.frames@)),
            Datagram::Ack(a) => DatagramView::Ack(a@),
            Datagram::Nack(a) => DatagramView::Nack(a@),
        }
    }
}

/// Frames appended one after another make the frames' encoding.
proof fn lemma_frames_bytes_push(frames: Seq<FrameView>, f: FrameView)
    ensures
        frames_bytes(frames.push(f)) == frames_bytes(frames) + frame_bytes(f),
    decreases frames.len(),
{
    if frames.len() == 0 {
        assert(frames.push(f).drop_first() =~= Seq::<FrameView>::empty());
        assert(frames.push(f)[0] == f);
        assert(frames_bytes(Seq::<FrameView>::empty()) == Seq::<u8>::empty());
        assert(frames_bytes(frames.push(f)) =~= frame_bytes(f));
    } else {
        assert(frames.push(f).drop_first() =~= frames.drop_first().push(f));
        lemma_frames_bytes_push(frames.drop_first(), f);
        assert(frames_bytes(frames.push(f)) =~= frames_bytes(frames) + frame_bytes(f));
    }
}

/// Reading frames from a buffer whose first frame reads back consumes it and reads on.
proof fn lemma_frames_read_step(s: Seq<u8>)
    requires
        s.len() > 0,
    ensures
        match frame_read(s) {
            Err((e, _)) => frames_read(s) == Err::<Seq<FrameView>, FrameError>(e),
            Ok((f, n)) => 0 < n <= s.len() && frames_read(s) == (match frames_read(s.skip(n as int)) {
                Ok(rest) => Ok(seq![f] + rest),
                Err(e) => Err(e),
            }),
        },
{
    match frame_read(s) {
        Err(_) => {},
        Ok((f, n)) => {
            lemma_frame_read_consumes(s);
        },
    }
}

/// A successful frame read consumes at least one byte and no more than it was given.
proof fn lemma_frame_read_consumes(s: Seq<u8>)
    ensures
        frame_read(s) matches Ok((f, n)) ==> 4 <= n <= s.len(),
{
}

impl Datagram {
    /// Appends this datagram.
    pub fn encode(&self, w: &mut Writer)
        ensures
            final(w)@ == old(w)@ + datagram_bytes(self@),
    {
        match self {
            Datagram::FrameSet(set) => {
                w.u8(FLAG_VALID).u24(set.sequence);
                let ghost head = w@;
                let mut i: usize = 0;
                while i < set.frames.len()
                    invariant
                        i <= set.frames@.len(),
                        w@ == head + frames_bytes(frames_view(set.frames@).take(i as int)),
                    decreases set.frames@.len() - i,
                {
                    let ghost before = w@;
                    set.frames[i].encode(w);
                    proof {
                        let fv = frames_view(set.frames@);
                        assert(fv.take(i + 1) =~= fv.take(i as int).push(fv[i as int]));
                        lemma_frames_bytes_push(fv.take(i as int), fv[i as int]);
                        assert(w@ =~= head + frames_bytes(fv.take(i + 1)));
                    }
                    i = i + 1;
                }
                proof {
                    assert(frames_view(set.frames@).take(i as int) =~= frames_view(set.frames@));
                    assert(w@ =~= old(w)@ + datagram_bytes(self@));
                }
            },
            Datagram::Ack(ack) => {
                ack.encode(w, FLAG_VALID | FLAG_ACK);
                proof {
                    assert(w@ =~= old(w)@ + datagram_bytes(self@));
                }
            },
            Datagram::Nack(nack) => {
                nack.encode(w, FLAG_VALID | FLAG_NACK);
                proof {
                    assert(w@ =~= old(w)@ + datagram_bytes(self@));
                }
            },
        }
    }

    /// Decodes a whole UDP payload.
    pub fn decode(buf: &[u8]) -> (res: Result<Self, DatagramError>)
        ensures
            match datagram_read(buf@) {
                Ok(d) => res matches Ok(x) && x@ == d,
                Err(e) => res matches Err(x) && x == e,
            },
    {
        let mut r = Reader::new(buf);
        let flags = match r.u8() {
            Ok(b) => b,
            Err(e) => return Err(DatagramError::Truncated(e)),
        };
        if flags & FLAG_VALID == 0 {
            return Err(DatagramError::NotConnected(flags));
        }
        if flags & FLAG_ACK != 0 {
            return match Acknowledgement::decode(&mut r) {
                Ok(a) => Ok(Datagram::Ack(a)),
                Err(e) => Err(e),
            };
        }
        if flags & FLAG_NACK != 0 {
            return match Acknowledgement::decode(&mut r) {
                Ok(a) => Ok(Datagram::Nack(a)),
                Err(e) => Err(e),
            };
        }
        let sequence = match r.u24() {
            Ok(v) => v,
            Err(e) => return Err(DatagramError::Truncated(e)),
        };
        proof {
            assert(buf@.skip(1).skip(3) =~= buf@.skip(4));
        }
        let ghost whole = frames_read(buf@.skip(4));
        let mut frames: Vec<Frame> = Vec::new();
        while r.remaining() > 0
            invariant
                buf@.len() >= 4,
                buf@[0] & FLAG_VALID != 0,
                buf@[0] & FLAG_ACK == 0,
                buf@[0] & FLAG_NACK == 0,
                sequence == le24_value(buf@.skip(1)),
                whole == frames_read(buf@.skip(4)),
                whole == (match frames_read(r@) {
                    Ok(rest) => Ok(frames_view(frames@) + rest),
                    Err(e) => Err(e),
                }),
            decreases r@.len(),
        {
            let ghost t = r@;
            proof {
                lemma_frames_read_step(t);
            }
            let f = match Frame::decode(&mut r) {
                Ok(f) => f,
                Err(e) => return Err(DatagramError::Frame(e)),
            };
            proof {
                let fv = f@;
                match frames_read(r@) {
                    Ok(rest) => {
                        assert(frames_view(frames@.push(f)) =~= frames_view(frames@).push(fv));
                        assert(frames_view(frames@).push(fv) + rest =~= frames_view(frames@) + (seq![fv] + rest));
                    },
                    Err(_) => {},
                }
            }
            frames.push(f);
        }
        proof {
            assert(frames_view(frames@) + Seq::<FrameView>::empty() =~= frames_view(frames@));
        }
        Ok(Datagram::FrameSet(FrameSet { sequence, frames }))
    }

    /// Whether two datagrams are the same.
    pub fn same(&self, other: &Datagram) -> (b: bool)
        ensures
            b == (self@ == other@),
    {
        match (self, other) {
            (Datagram::FrameSet(a), Datagram::FrameSet(b)) => {
                if a.sequence != b.sequence || a.frames.len() != b.frames.len() {
                    proof {
                        if a.frames.len() != b.frames.len() {
                            assert(frames_view(a.frames@).len() != frames_view(b.frames@).len());
                        }
                    }
                    return false;
                }
                let mut i: usize = 0;
                while i < a.frames.len()
                    invariant
                        i <= a.frames@.len(),
                        self@ == DatagramView::FrameSet(a.sequence, frames_view(a.frames@)),
                        other@ == DatagramView::FrameSet(b.sequence, frames_view(b.frames@)),
                        a.sequence == b.sequence,
                        a.frames@.len() == b.frames@.len(),
                        forall|j: int| 0 <= j < i ==> (#[trigger] a.frames@[j])@ == b.frames@[j]@,
                    decreases a.frames@.len() - i,
                {
                    if !a.frames[i].same(&b.frames[i]) {
                        proof {
                            assert(frames_view(a.frames@)[i as int] != frames_view(b.frames@)[i as int]);
                        }
                        return false;
                    }
                    i = i + 1;
                }
                proof {
                    assert(frames_view(a.frames@) =~= frames_view(b.frames@));
                }
                true
            },
            (Datagram::Ack(a), Datagram::Ack(b)) => a.same(b),
            (Datagram::Nack(a), Datagram::Nack(b)) => a.same(b),
            _ => false,
        }
    }
}

impl PartialEq for Acknowledgement {
    fn eq(&self, other: &Acknowledgement) -> (r: bool) {
        self.same(other)
    }
}

impl vstd::std_specs::cmp::PartialEqSpecImpl for Acknowledgement {
    open spec fn obeys_eq_spec() -> bool {
        true
    }

    open spec fn eq_spec(&self, other: &Acknowledgement) -> bool {
        self@ == other@
    }
}

impl Eq for Acknowledgement {

}

impl PartialEq for Datagram {
    fn eq(&self, other: &Datagram) -> (r: bool) {
        self.same(other)
    }
}

impl vstd::std_specs::cmp::PartialEqSpecImpl for Datagram {
    open spec fn obeys_eq_spec() -> bool {
        true
    }

    open spec fn eq_spec(&self, other: &Datagram) -> bool {
        self@ == other@
    }
}

impl Eq for Datagram {

}

/// Whether every range fits the 24-bit fields of a record.
pub open spec fn ranges_encodable(ranges: Seq<(u32, u32)>) -> bool {
    &&& ranges.len() <= u16::MAX
    &&& forall|i: int| 0 <= i < ranges.len() ==> (#[trigger] ranges[i]).0 < 0x100_0000 && ranges[i].1 < 0x100_0000
}

/// Whether a datagram's fields fit what the wire carries.
pub open spec fn datagram_encodable(d: DatagramView) -> bool {
    match d {
        DatagramView::FrameSet(sequence, frames) => sequence < 0x100_0000 && forall|i: int|
            0 <= i < frames.len() ==> encodable(#[trigger] frames[i]),
        DatagramView::Ack(ranges) => ranges_encodable(ranges),
        DatagramView::Nack(ranges) => ranges_encodable(ranges),
    }
}

/// A datagram with each frame's uncarried fields cleared: what a decode of its encoding
/// gives back.
pub open spec fn carried_datagram(d: DatagramView) -> DatagramView {
    match d {
        DatagramView::FrameSet(sequence, frames) => DatagramView::FrameSet(
            sequence,
            frames.map_values(|f: FrameView| carried(f)),
        ),
        _ => d,
    }
}

/// Encoded frames read back, each less its uncarried fields.
pub proof fn lemma_frames_round_trip(frames: Seq<FrameView>)
    requires
        forall|i: int| 0 <= i < frames.len() ==> encodable(#[trigger] frames[i]),
    ensures
        frames_read(frames_bytes(frames)) == Ok::<Seq<FrameView>, FrameError>(
            frames.map_values(|f: FrameView| carried(f)),
        ),
    decreases frames.len(),
{
    if frames.len() == 0 {
        assert(frames.map_values(|f: FrameView| carried(f)) =~= Seq::<FrameView>::empty());
    } else {
        let f = frames[0];
        let rest = frames.drop_first();
        assert forall|i: int| 0 <= i < rest.len() implies encodable(#[trigger] rest[i]) by {
            assert(rest[i] == frames[i + 1]);
        }
        lemma_frames_round_trip(rest);
        let tail = frames_bytes(rest);
        let s = frames_bytes(frames);
        assert(s == frame_bytes(f) + tail);
        lemma_frame_round_trip(f, tail);
        let n = frame_bytes(f).len();
        assert(s.len() > 0) by {
            assert(frame_bytes(f).len() >= 1);
        }
        lemma_frames_read_step(s);
        assert(s.skip(n as int) =~= tail);
        assert(frames.map_values(|f: FrameView| carried(f)) =~= seq![carried(f)] + rest.map_values(
            |f: FrameView| carried(f),
        ));
    }
}

/// Encoded records read back as written.
pub proof fn lemma_records_round_trip(ranges: Seq<(u32, u32)>, rest: Seq<u8>)
    requires
        forall|i: int| 0 <= i < ranges.len() ==> (#[trigger] ranges[i]).0 < 0x100_0000 && ranges[i].1 < 0x100_0000,
    ensures
        records_read(records_bytes(ranges) + rest, ranges.len()) == Ok::<Seq<(u32, u32)>, DatagramError>(ranges),
    decreases ranges.len(),
{
    if ranges.len() == 0 {
        assert(Seq::<(u32, u32)>::empty() =~= ranges);
    } else {
        let r = ranges[0];
        let more = ranges.drop_first();
        assert forall|i: int| 0 <= i < more.len() implies (#[trigger] more[i]).0 < 0x100_0000 && more[i].1 < 0x100_0000 by {
            assert(more[i] == ranges[i + 1]);
        }
        lemma_records_round_trip(more, rest);
        let s = records_bytes(ranges) + rest;
        let after = records_bytes(more) + rest;
        assert(s =~= record_bytes(r) + after);
        crate::num::lemma_fixed_width_round_trip(0, r.0, 0);
        crate::num::lemma_fixed_width_round_trip(0, r.1, 0);
        if r.0 == r.1 {
            assert(s.skip(1).take(3) =~= le24(r.0));
            assert(le24_value(s.skip(1)) == le24_value(le24(r.0)));
            assert(s.skip(4) =~= after);
        } else {
            assert(s.skip(1).take(3) =~= le24(r.0));
            assert(le24_value(s.skip(1)) == le24_value(le24(r.0)));
            assert(s.skip(4).take(3) =~= le24(r.1));
            assert(le24_value(s.skip(4)) == le24_value(le24(r.1)));
            assert(s.skip(7) =~= after);
        }
        assert(seq![r] + more =~= ranges);
    }
}

/// A datagram's encoding decodes back to it, each frame less its uncarried fields.
pub proof fn lemma_datagram_round_trip(d: DatagramView)
    requires
        datagram_encodable(d),
    ensures
        datagram_read(datagram_bytes(d)) == Ok::<DatagramView, DatagramError>(carried_datagram(d)),
{
    let s = datagram_bytes(d);
    match d {
        DatagramView::FrameSet(sequence, frames) => {
            assert(0x80u8 & 0x80u8 != 0 && 0x80u8 & 0x40u8 == 0 && 0x80u8 & 0x20u8 == 0) by (bit_vector);
            crate::num::lemma_fixed_width_round_trip(0, sequence, 0);
            assert(s.skip(1).take(3) =~= le24(sequence));
            assert(le24_value(s.skip(1)) == le24_value(le24(sequence)));
            assert(s.skip(4) =~= frames_bytes(frames));
            lemma_frames_round_trip(frames);
        },
        DatagramView::Ack(ranges) => {
            assert((0x80u8 | 0x40u8) & 0x80u8 != 0 && (0x80u8 | 0x40u8) & 0x40u8 != 0) by (bit_vector);
            assert(s.skip(1) =~= ack_body(ranges));
            lemma_ack_round_trip(ranges, s);
        },
        DatagramView::Nack(ranges) => {
            assert((0x80u8 | 0x20u8) & 0x80u8 != 0 && (0x80u8 | 0x20u8) & 0x40u8 == 0 && (0x80u8
                | 0x20u8) & 0x20u8 != 0) by (bit_vector);
            assert(s.skip(1) =~= ack_body(ranges));
            lemma_ack_round_trip(ranges, s);
        },
    }
}

/// An acknowledgement's body reads back as written.
proof fn lemma_ack_round_trip(ranges: Seq<(u32, u32)>, s: Seq<u8>)
    requires
        ranges_encodable(ranges),
        s.len() >= 1,
        s.skip(1) == ack_body(ranges),
    ensures
        ack_read(s.skip(1)) == Ok::<Seq<(u32, u32)>, DatagramError>(ranges),
{
    let n = ranges.len();
    assert(record_count(n) == n);
    assert(ranges.take(n as int) =~= ranges);
    let t = s.skip(1);
    crate::num::lemma_fixed_width_round_trip(n as u16, 0, 0);
    assert(t.take(2) =~= be16(n as u16));
    assert(be16_value(t) == be16_value(be16(n as u16)));
    assert(t.skip(2) =~= records_bytes(ranges) + Seq::<u8>::empty());
    lemma_records_round_trip(ranges, Seq::<u8>::empty());
}

} // verus!
