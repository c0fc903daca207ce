//! The batch: how game packets are framed inside one RakNet payload.
//!
//! ```text
//! fe                    marker
//! varint len | packet   repeated until the payload ends
//! ```
//!
//! Each packet starts with a varint header carrying the id in its low ten bits and two
//! subclient fields above it — split-screen players share one connection, and reading
//! the header as a plain id would decode a second player's packets as garbage ids.
use crate::protocol::bytes::{
    lemma_prefixed_round_trip, lemma_varint_round_trip, lemma_varint_scan_bounds,
    prefixed_encoding, prefixed_read, varint_encoding, varint_read, DecodeError, Reader, Writer,
};
use vstd::prelude::*;

verus! {

/// First byte of every batch.
pub const MARKER: u8 = 0xfe;

/// A packet as the contracts see it: id, sender, target and body.
pub type PacketView = (u32, u8, u8, Seq<u8>);

/// One packet inside a batch.
#[derive(Debug, Clone, PartialEq, Eq)]
pub struct Packet {
    /// Packet id, from the low ten bits of the header.
    pub id: u32,
    /// Which split-screen player sent it.
    pub sender: u8,
    /// Which split-screen player it is for.
    pub target: u8,
    /// The body, without the header.
    pub body: Vec<u8>,
}

impl View for Packet {
    type V = PacketView;

    open spec fn view(&self) -> PacketView {
        (self.id, self.sender, self.target, self.body@)
    }
}

/// The header that carries a packet's id and subclient fields.
pub open spec fn header_of(p: PacketView) -> u32 {
    (p.0 & 0x3ff) | (((p.1 as u32) & 3) << 10u32) | (((p.2 as u32) & 3) << 12u32)
}

/// A packet as it survives the header: the id cut to ten bits, the subclient fields to
/// two.
pub open spec fn normalized(p: PacketView) -> PacketView {
    (p.0 & 0x3ff, p.1 & 3, p.2 & 3, p.3)
}

/// The bytes of one packet inside its length prefix: header, then body.
pub open spec fn packet_bytes(p: PacketView) -> Seq<u8> {
    varint_encoding(header_of(p) as nat) + p.3
}

/// The packet stream that follows the marker: each packet length-prefixed, in order.
pub open spec fn packets_encoding(ps: Seq<PacketView>) -> Seq<u8>
    decreases ps.len(),
{
    if ps.len() == 0 {
        Seq::empty()
    } else {
        prefixed_encoding(packet_bytes(ps[0])) + packets_encoding(ps.drop_first())
    }
}

/// A whole uncompressed batch.
pub open spec fn batch_encoding(ps: Seq<PacketView>) -> Seq<u8> {
    seq![MARKER] + packets_encoding(ps)
}

/// The packet that the bytes inside one length prefix decode to.
pub open spec fn packet_from(inner: Seq<u8>) -> Result<PacketView, DecodeError> {
    match varint_read(inner) {
        Err(e) => Err(e),
        Ok((h, m)) => Ok(
            (h & 0x3ff, ((h >> 10u32) & 3) as u8, ((h >> 12u32) & 3) as u8, inner.skip(m as int)),
        ),
    }
}

/// The packets a stream decodes to, or the first reason it does not.
pub open spec fn parse_packets(s: Seq<u8>) -> Result<Seq<PacketView>, DecodeError>
    decreases s.len(),
{
    if s.len() == 0 {
        Ok(Seq::empty())
    } else {
        match prefixed_read(s) {
            Err(e) => Err(e),
            Ok((inner, n)) => if 0 < n <= s.len() {
                match packet_from(inner) {
                    Err(e) => Err(e),
                    Ok(p) => match parse_packets(s.skip(n as int)) {
                        Ok(ps) => Ok(seq![p] + ps),
                        Err(e) => Err(e),
                    },
                }
            } else {
                Err(DecodeError::VarintTooLong)
            },
        }
    }
}

/// What a batch decodes to: the marker must come first.
pub open spec fn parse_batch(s: Seq<u8>) -> Result<Seq<PacketView>, DecodeError> {
    if s.len() == 0 || s[0] != MARKER {
        Err(DecodeError::UnexpectedEnd { needed: 1, available: 0 })
    } else {
        parse_packets(s.skip(1))
    }
}

/// The views of a list of packets.
pub open spec fn packets_view(v: Seq<Packet>) -> Seq<PacketView> {
    v.map_values(|p: Packet| p@)
}

/// `prefix` in front of whatever `rest` decoded to.
pub open spec fn prepend(prefix: Seq<PacketView>, rest: Result<Seq<PacketView>, DecodeError>) -> Result<
    Seq<PacketView>,
    DecodeError,
> {
    match rest {
        Ok(ps) => Ok(prefix + ps),
        Err(e) => Err(e),
    }
}

impl Packet {
    /// A packet from the primary player to the primary player.
    pub fn new(id: u32, body: Vec<u8>) -> (p: Self)
        ensures
            p@ == (id, 0u8, 0u8, body@),
    {
        Packet { id, sender: 0, target: 0, body }
    }

    fn header(&self) -> (h: u32)
        ensures
            h == header_of(self@),
    {
        (self.id & 0x3ff) | (((self.sender as u32) & 3) << 10u32) | (((self.target as u32) & 3)
            << 12u32)
    }
}

proof fn lemma_packets_encoding_push(ps: Seq<PacketView>, p: PacketView)
    ensures
        packets_encoding(ps.push(p)) == packets_encoding(ps) + prefixed_encoding(packet_bytes(p)),
    decreases ps.len(),
{
    if ps.len() == 0 {
        let one = ps.push(p);
        assert(one.drop_first() =~= Seq::<PacketView>::empty());
        assert(one[0] == p);
        assert(packets_encoding(Seq::<PacketView>::empty()) == Seq::<u8>::empty());
        assert(packets_encoding(one) == prefixed_encoding(packet_bytes(p)) + packets_encoding(
            one.drop_first(),
        ));
        assert(packets_encoding(one) =~= packets_encoding(ps) + prefixed_encoding(packet_bytes(p)));
    } else {
        lemma_packets_encoding_push(ps.drop_first(), p);
        assert(ps.push(p).drop_first() =~= ps.drop_first().push(p));
        assert(packets_encoding(ps.push(p)) =~= packets_encoding(ps) + prefixed_encoding(
            packet_bytes(p),
        ));
    }
}

/// Wraps packets in a batch, uncompressed.
pub fn encode(packets: &[Packet]) -> (out: Vec<u8>)
    ensures
        out@ == batch_encoding(packets_view(packets@)),
{
    let mut out = Writer::new();
    out.u8(MARKER);
    let mut i: usize = 0;
    while i < packets.len()
        invariant
            i <= packets@.len(),
            out@ == seq![MARKER] + packets_encoding(packets_view(packets@.take(i as int))),
        decreases packets@.len() - i,
    {
        let packet = &packets[i];
        let mut inner = Writer::new();
        inner.varint(packet.header()).bytes(packet.body.as_slice());
        let bytes = inner.finish();
        out.prefixed(bytes.as_slice());
        proof {
            assert(bytes@ =~= packet_bytes(packet@));
            assert(packets_view(packets@.take(i + 1)) =~= packets_view(packets@.take(i as int)).push(
                packet@,
            ));
            lemma_packets_encoding_push(packets_view(packets@.take(i as int)), packet@);
        }
        i = i + 1;
    }
    proof {
        assert(packets@.take(packets@.len() as int) =~= packets@);
    }
    out.finish()
}

/// Splits an uncompressed batch into its packets.
///
/// `bytes` must already have any compression removed, and must start with [`MARKER`].
pub fn decode(bytes: &[u8]) -> (res: Result<Vec<Packet>, DecodeError>)
    ensures
        match parse_batch(bytes@) {
            Ok(ps) => res matches Ok(v) && packets_view(v@) == ps,
            Err(e) => res == Err::<Vec<Packet>, DecodeError>(e),
        },
{
    let mut r = Reader::new(bytes);
    if r.u8()? != MARKER {
        return Err(DecodeError::UnexpectedEnd { needed: 1, available: 0 });
    }
    decode_packets(r)
}

/// Splits the packet stream that follows the marker and any compression header.
pub fn decode_packets(r: Reader<'_>) -> (res: Result<Vec<Packet>, DecodeError>)
    ensures
        match parse_packets(r@) {
            Ok(ps) => res matches Ok(v) && packets_view(v@) == ps,
            Err(e) => res == Err::<Vec<Packet>, DecodeError>(e),
        },
{
    let ghost start = r@;
    let mut cur = r;
    let mut packets: Vec<Packet> = Vec::new();
    while !cur.is_empty()
        invariant
            start == r@,
            parse_packets(start) == prepend(packets_view(packets@), parse_packets(cur@)),
        decreases cur@.len(),
    {
        let ghost before = cur@;
        proof {
            lemma_varint_scan_bounds(before, 0, 5);
        }
        let slice = match cur.prefixed() {
            Ok(s) => s,
            Err(e) => {
                proof {
                    assert(parse_packets(before) == Err::<Seq<PacketView>, DecodeError>(e));
                }
                return Err(e);
            },
        };
        let ghost inner_v = slice@;
        let mut inner = Reader::new(slice);
        let header = match inner.varint() {
            Ok(h) => h,
            Err(e) => {
                proof {
                    let (iv, used) = prefixed_read(before)->Ok_0;
                    assert(0 < used <= before.len());
                    assert(packet_from(iv) == Err::<PacketView, DecodeError>(e));
                    assert(parse_packets(before) == Err::<Seq<PacketView>, DecodeError>(e));
                }
                return Err(e);
            },
        };
        let n = inner.remaining();
        let body_slice = match inner.bytes(n) {
            Ok(b) => b,
            Err(e) => {
                return Err(e);
            },
        };
        let body = vstd::slice::slice_to_vec(body_slice);
        let packet = Packet {
            id: header & 0x3ff,
            sender: ((header >> 10u32) & 3) as u8,
            target: ((header >> 12u32) & 3) as u8,
            body,
        };
        proof {
            let (iv, used) = prefixed_read(before)->Ok_0;
            assert(0 < used <= before.len());
            let m = varint_read(iv)->Ok_0.1;
            assert(body@ =~= iv.skip(m as int));
            assert(packet_from(iv) == Ok::<PacketView, DecodeError>(packet@));
            assert(cur@ == before.skip(used as int));
            assert(packets_view(packets@.push(packet)) =~= packets_view(packets@).push(packet@));
            match parse_packets(cur@) {
                Ok(ps) => {
                    assert(parse_packets(before) == Ok::<Seq<PacketView>, DecodeError>(seq![packet@] + ps));
                    assert(packets_view(packets@).push(packet@) + ps =~= packets_view(packets@) + (
                    seq![packet@] + ps));
                },
                Err(e) => {
                    assert(parse_packets(before) == Err::<Seq<PacketView>, DecodeError>(e));
                },
            }
        }
        packets.push(packet);
    }
    proof {
        assert(packets_view(packets@) + Seq::<PacketView>::empty() =~= packets_view(packets@));
    }
    Ok(packets)
}

/// Decoding what [`encode`] wrote gives back the packets, with the id cut to its ten
/// bits and the subclient fields to their two, whenever every packet fits a length
/// prefix.
pub proof fn lemma_batch_round_trip(ps: Seq<PacketView>)
    requires
        forall|i: int| 0 <= i < ps.len() ==> #[trigger] packet_bytes(ps[i]).len() <= u32::MAX,
    ensures
        parse_batch(batch_encoding(ps)) == Ok::<Seq<PacketView>, DecodeError>(
            ps.map_values(|p: PacketView| normalized(p)),
        ),
{
    assert(batch_encoding(ps).skip(1) =~= packets_encoding(ps));
    lemma_packets_round_trip(ps);
}

proof fn lemma_header_round_trip(id: u32, s: u8, t: u8)
    ensures
        ({
            let h = (id & 0x3ff) | (((s as u32) & 3) << 10u32) | (((t as u32) & 3) << 12u32);
            &&& h & 0x3ff == id & 0x3ff
            &&& ((h >> 10u32) & 3) as u8 == s & 3
            &&& ((h >> 12u32) & 3) as u8 == t & 3
        }),
{
    assert(((id & 0x3ff) | (((s as u32) & 3) << 10u32) | (((t as u32) & 3) << 12u32)) & 0x3ff
        == id & 0x3ff) by (bit_vector);
    assert(((((id & 0x3ff) | (((s as u32) & 3) << 10u32) | (((t as u32) & 3) << 12u32))
        >> 10u32) & 3) as u8 == s & 3) by (bit_vector);
    assert(((((id & 0x3ff) | (((s as u32) & 3) << 10u32) | (((t as u32) & 3) << 12u32))
        >> 12u32) & 3) as u8 == t & 3) by (bit_vector);
}

proof fn lemma_packets_round_trip(ps: Seq<PacketView>)
    requires
        forall|i: int| 0 <= i < ps.len() ==> #[trigger] packet_bytes(ps[i]).len() <= u32::MAX,
    ensures
        parse_packets(packets_encoding(ps)) == Ok::<Seq<PacketView>, DecodeError>(
            ps.map_values(|p: PacketView| normalized(p)),
        ),
    decreases ps.len(),
{
    if ps.len() == 0 {
        assert(ps.map_values(|p: PacketView| normalized(p)) =~= Seq::<PacketView>::empty());
    } else {
        let p = ps[0];
        let rest = ps.drop_first();
        assert forall|i: int| 0 <= i < rest.len() implies #[trigger] packet_bytes(rest[i]).len()
            <= u32::MAX by {
            assert(rest[i] == ps[i + 1]);
        }
        assert(packet_bytes(ps[0]).len() <= u32::MAX);
        lemma_packets_round_trip(rest);
        let s = packets_encoding(ps);
        let pb = packet_bytes(p);
        lemma_prefixed_round_trip(pb, packets_encoding(rest));
        let n = prefixed_encoding(pb).len();
        assert(s == prefixed_encoding(pb) + packets_encoding(rest));
        assert(s.skip(n as int) =~= packets_encoding(rest));
        lemma_varint_round_trip(header_of(p), p.3);
        lemma_header_round_trip(p.0, p.1, p.2);
        assert(pb.skip(varint_encoding(header_of(p) as nat).len() as int) =~= p.3);
        assert(packet_from(pb) == Ok::<PacketView, DecodeError>(normalized(p)));
        assert(ps.map_values(|p: PacketView| normalized(p)) =~= seq![normalized(p)]
            + rest.map_values(|p: PacketView| normalized(p)));
    }
}

} // verus!
