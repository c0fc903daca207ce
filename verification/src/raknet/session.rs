//! The per-peer state machine.
//!
//! It never touches a socket and never reads a clock. Datagrams and the current time go
//! in, datagrams and delivered payloads come out:
//!
//! ```text
//! receive(bytes, now) ─► acks, reassembly, ordering ─► payloads for the caller
//! send(payload, now)  ─► split, frame, pack          ─┐
//! tick(now)           ─► retransmit, ack, keepalive  ─┴─► poll_transmit()
//! ```
//!
//! It answers RakNet's own packets itself — connection handshake, ping, disconnect —
//! so what reaches the caller is only the payloads a peer actually sent. The split is
//! by id: RakNet reserves everything below [`USER_PACKET_START`], and only ids at or
//! above it are handed up. Without that boundary a payload whose first byte happens to
//! be `0x00` is indistinguishable from `ConnectedPing`.
//!
//! Incoming NACKs are honoured; outgoing ones are not generated. A lost datagram is
//! recovered by the retransmission timeout either way.
//!
//! Times are nanoseconds on a monotonic clock the caller reads.
use crate::num::{be16, be64, be64_value};
use crate::raknet::address::{
    address_bytes, address_read, lemma_address_round_trip, write as write_address, Address, AddressView,
};
use crate::raknet::datagram::{
    datagram_bytes, datagram_read, frames_view, Acknowledgement, Datagram, DatagramError, DatagramView, FrameSet,
    DATAGRAM_HEADER_LEN,
};
use crate::raknet::frame::{ordered, reliable, Frame, FrameView, Reliability, Split};
use crate::raknet::online::{
    accepted_read, connection_request_bytes, slots_read, ID_CONNECTED_PING, ID_CONNECTED_PONG, ID_CONNECTION_REQUEST,
    ID_CONNECTION_REQUEST_ACCEPTED, ID_DISCONNECT, ID_NEW_INCOMING_CONNECTION, SYSTEM_ADDRESS_COUNT,
    TRAILING_TIMESTAMPS,
};
use crate::raknet::order::{
    accept_spec, drain_views, lemma_accept_once, lemma_drain_views, lemma_refused_stays_refused, views_of, Dedup,
    DedupView, OrderBuffer, OutOfWindow,
};
use crate::raknet::retransmit::{
    self, ack_ranges, due_spec, elapsed, nack_ranges, over_retried, timeout_spec, RetransmitView, Retransmitter,
    WindowFull,
};
use crate::raknet::split::{
    self, fragment_capacity, fragment_capacity_spec, fragments_of, lemma_pieces_fit, push_spec, Reassembler,
    ReassemblerView, SplitError, Splitter,
};
use crate::raknet::wire::Writer;
use std::collections::VecDeque;
use vstd::prelude::*;

verus! {

/// First message id belonging to the application rather than to RakNet.
///
/// A payload starting lower is a control packet, and one that is not recognised is
/// dropped rather than delivered.
pub const USER_PACKET_START: u8 = 0x86;

/// How far a session has got.
#[derive(Debug, Clone, Copy, PartialEq, Eq, Structural)]
pub enum State {
    /// Open, but the peer has not completed the handshake.
    Connecting,
    /// Handshake done; payloads flow.
    Connected,
    /// Finished, by disconnect or by giving up on the peer.
    Closed,
}

/// Why a session finished. A peer that left and a peer that was given up on point at
/// opposite bugs.
#[derive(Debug, Clone, Copy, PartialEq, Eq, Structural)]
pub enum Closed {
    /// The peer sent `Disconnect`.
    ByPeer,
    /// The peer went silent for longer than the timeout.
    Timeout,
    /// The peer stopped acknowledging what was sent.
    Unreachable,
    /// This side closed it.
    ByUs,
}

/// What a session will spend on one peer. Durations are nanoseconds.
#[derive(Debug, Clone, Copy)]
pub struct Config {
    /// Largest datagram that may be built.
    pub payload_limit: usize,
    /// Reassembly bounds.
    pub split: split::Limits,
    /// Retransmission bounds.
    pub retransmit: retransmit::Limits,
    /// Ordered payloads held ahead of a gap.
    pub order_window: u32,
    /// Reliable indices remembered for deduplication.
    pub dedup_window: u32,
    /// Silence before a ping checks the peer is alive.
    pub keepalive: u64,
    /// Silence before the peer is given up on.
    pub timeout: u64,
    /// Datagrams queued for the socket. Bounds a peer that reads slower than we write.
    pub max_outbox: usize,
}

impl Default for Config {
    fn default() -> (c: Self)
        ensures
            c.payload_limit == 1472,
            c.order_window == 2048,
            c.dedup_window == 4096,
            c.keepalive == 5_000_000_000,
            c.timeout == 20_000_000_000,
            c.max_outbox == 256,
            c.retransmit.min_rto <= c.retransmit.max_rto,
    {
        Config {
            payload_limit: 1472,
            split: split::Limits::default(),
            retransmit: retransmit::Limits::default(),
            order_window: 2048,
            dedup_window: 4096,
            keepalive: 5_000_000_000,
            timeout: 20_000_000_000,
            max_outbox: 256,
        }
    }
}

/// Why a session refused something.
#[derive(Debug, Clone, PartialEq, Eq, Structural)]
pub enum SessionError {
    /// The datagram did not decode.
    Datagram(DatagramError),
    /// A fragment was refused.
    Split(SplitError),
    /// An ordered payload was outside the window.
    Order(OutOfWindow),
    /// Too many unacknowledged datagrams.
    Window(WindowFull),
    /// The outbox is full.
    OutboxFull,
    /// The session is closed.
    Closed,
}

/// `v + k`, wrapping at the top of `u32`.
pub open spec fn wrap_add(v: u32, k: nat) -> u32 {
    ((v as nat + k) % 0x1_0000_0000) as u32
}

/// The frames of one payload as they are sent: consecutive reliable indices from `r0`,
/// and one order index `o0` shared by all of them, since the peer orders the payload,
/// not its pieces.
pub open spec fn numbered(fs: Seq<FrameView>, r0: u32, o0: u32) -> Seq<FrameView> {
    Seq::new(
        fs.len(),
        |i: int| (fs[i].0, wrap_add(r0, i as nat), fs[i].2, o0, fs[i].4, fs[i].5, fs[i].6),
    )
}

/// Batches of frames, one after another.
pub open spec fn flatten_batches(bs: Seq<Seq<FrameView>>) -> Seq<FrameView>
    decreases bs.len(),
{
    if bs.len() == 0 {
        Seq::empty()
    } else {
        flatten_batches(bs.drop_last()) + bs.last()
    }
}

/// The views of batches of frames.
pub open spec fn batches_view(bs: Seq<Vec<Frame>>) -> Seq<Seq<FrameView>> {
    bs.map_values(|b: Vec<Frame>| frames_view(b@))
}

/// The datagrams carrying batches of frames, numbered from `seq0`.
pub open spec fn frame_set_datagrams(bs: Seq<Seq<FrameView>>, seq0: u32) -> Seq<Seq<u8>> {
    Seq::new(
        bs.len(),
        |i: int| datagram_bytes(DatagramView::FrameSet(wrap_add(seq0, i as nat), bs[i])),
    )
}

/// The bytes of each queued datagram.
pub open spec fn outbox_view(q: Seq<Vec<u8>>) -> Seq<Seq<u8>> {
    q.map_values(|d: Vec<u8>| d@)
}

/// Milliseconds from `started` to `now`, as RakNet timestamps them; zero if `now` is
/// earlier.
pub open spec fn millis_since(started: u64, now: u64) -> i64 {
    (elapsed(now, started) / 1_000_000) as i64
}

/// `ConnectionRequestAccepted` as this side sends it: the peer's address, a zero
/// system index, every slot filled with our own address, and the two timestamps.
pub open spec fn request_accepted_bytes(peer: AddressView, local: AddressView, request_time: i64, now_ms: i64) -> Seq<u8> {
    seq![ID_CONNECTION_REQUEST_ACCEPTED] + address_bytes(peer) + be16(0) + repeat_address(
        local,
        SYSTEM_ADDRESS_COUNT as nat,
    ) + be64(request_time as u64) + be64(now_ms as u64)
}

/// `n` copies of an address on the wire.
pub open spec fn repeat_address(a: AddressView, n: nat) -> Seq<u8>
    decreases n,
{
    if n == 0 {
        Seq::empty()
    } else {
        repeat_address(a, (n - 1) as nat) + address_bytes(a)
    }
}

/// An address takes seven bytes on the wire.
proof fn lemma_address_len(a: AddressView)
    requires
        !a.0 ==> a.1.len() == 4,
    ensures
        address_bytes(a).len() == 7,
{
}

/// Copies of an address start with one of them.
proof fn lemma_repeat_front(a: AddressView, n: nat)
    requires
        n >= 1,
    ensures
        repeat_address(a, n) == address_bytes(a) + repeat_address(a, (n - 1) as nat),
    decreases n,
{
    if n > 1 {
        lemma_repeat_front(a, (n - 1) as nat);
        assert(repeat_address(a, n) =~= address_bytes(a) + repeat_address(a, (n - 1) as nat));
    } else {
        assert(repeat_address(a, 1) =~= address_bytes(a) + repeat_address(a, 0));
    }
}

/// Address slots followed by the two timestamps read back as that many slots, leaving
/// the timestamps.
proof fn lemma_slots_read(a: AddressView, n: nat, tail: Seq<u8>)
    requires
        !a.0 ==> a.1.len() == 4,
        tail.len() == TRAILING_TIMESTAMPS,
    ensures
        slots_read(repeat_address(a, n) + tail).0 is Ok,
        slots_read(repeat_address(a, n) + tail).1 == 7 * n,
    decreases n,
{
    lemma_address_len(a);
    if n == 0 {
        assert(repeat_address(a, 0) + tail =~= tail);
    } else {
        lemma_repeat_front(a, n);
        let rest = repeat_address(a, (n - 1) as nat) + tail;
        let s = repeat_address(a, n) + tail;
        assert(s =~= address_bytes(a) + rest);
        lemma_address_round_trip(a, rest);
        assert(s.skip(7) =~= rest);
        lemma_slots_read(a, (n - 1) as nat, tail);
        assert(rest.len() >= TRAILING_TIMESTAMPS);
    }
}

/// A session's `ConnectionRequestAccepted` decodes to what it acknowledges: the request
/// time it echoes is the timestamp the `ConnectionRequest` carried, and the accepted
/// time is the session's own clock.
pub proof fn lemma_request_accepted_decodes(
    peer: AddressView,
    local: AddressView,
    client_guid: i64,
    time: i64,
    now_ms: i64,
)
    requires
        !peer.0 ==> peer.1.len() == 4,
        !local.0 ==> local.1.len() == 4,
    ensures
        accepted_read(
            request_accepted_bytes(
                peer,
                local,
                request_time_of(connection_request_bytes(client_guid, time)),
                now_ms,
            ),
        ) matches Ok(v) && v.3 == time && v.4 == now_ms,
{
    let req = connection_request_bytes(client_guid, time);
    crate::num::lemma_fixed_width_round_trip(0, 0, time as u64);
    assert forall|k: int| 0 <= k < 8 implies req.skip(9)[k] == be64(time as u64)[k] by {}
    assert(be64_value(req.skip(9)) == be64_value(be64(time as u64)));
    assert((time as u64) as i64 == time) by (bit_vector);
    assert(request_time_of(req) == time);
    let stamps = be64(time as u64) + be64(now_ms as u64);
    let slots = repeat_address(local, SYSTEM_ADDRESS_COUNT as nat);
    let s = request_accepted_bytes(peer, local, time, now_ms);
    lemma_address_len(peer);
    assert(s =~= seq![ID_CONNECTION_REQUEST_ACCEPTED] + address_bytes(peer) + (be16(0) + (slots + stamps)));
    lemma_address_round_trip(peer, be16(0) + (slots + stamps));
    assert(s.skip(1) =~= address_bytes(peer) + (be16(0) + (slots + stamps)));
    let t = s.skip(8);
    assert(t =~= be16(0) + (slots + stamps));
    assert(t.skip(2) =~= slots + stamps);
    lemma_slots_read(local, SYSTEM_ADDRESS_COUNT as nat, stamps);
    lemma_address_len(local);
    let n = slots_read(t.skip(2)).1;
    assert(slots.len() == n) by {
        lemma_repeat_len(local, SYSTEM_ADDRESS_COUNT as nat);
    }
    let u = t.skip(2).skip(n as int);
    assert(u =~= stamps);
    crate::num::lemma_fixed_width_round_trip(0, 0, now_ms as u64);
    assert forall|k: int| 0 <= k < 8 implies u[k] == be64(time as u64)[k] by {}
    assert forall|k: int| 0 <= k < 8 implies u.skip(8)[k] == be64(now_ms as u64)[k] by {}
    assert(be64_value(u) == be64_value(be64(time as u64)));
    assert(be64_value(u.skip(8)) == be64_value(be64(now_ms as u64)));
    assert((now_ms as u64) as i64 == now_ms) by (bit_vector);
}

/// Copies of an address take seven bytes each.
proof fn lemma_repeat_len(a: AddressView, n: nat)
    requires
        !a.0 ==> a.1.len() == 4,
    ensures
        repeat_address(a, n).len() == 7 * n,
    decreases n,
{
    lemma_address_len(a);
    if n > 0 {
        lemma_repeat_len(a, (n - 1) as nat);
    }
}

/// `v + 1`, wrapping at the top of `u32`.
fn bump(v: u32) -> (r: u32)
    ensures
        r == wrap_add(v, 1),
{
    if v == u32::MAX {
        0
    } else {
        v + 1
    }
}

/// Wrapping one step at a time is wrapping all at once.
proof fn lemma_wrap_step(v: u32, k: nat)
    ensures
        wrap_add(wrap_add(v, k), 1) == wrap_add(v, k + 1),
{
    let m: int = 0x1_0000_0000;
    let a = (v as nat + k) as int;
    assert(wrap_add(v, k) as int == a % m);
    vstd::arithmetic::div_mod::lemma_add_mod_noop(a, 1, m);
    vstd::arithmetic::div_mod::lemma_mod_bound(a, m);
    assert((a % m + 1int % m) % m == (a + 1) % m);
    assert(1int % m == 1);
}

/// The frames a payload is sent as: nothing for a zero capacity, the payload whole when
/// it fits, and otherwise its fragments under split id `id`.
pub open spec fn sent_frames(payload: Seq<u8>, capacity: nat, id: u16) -> Seq<FrameView> {
    if capacity == 0 {
        Seq::empty()
    } else if payload.len() <= capacity {
        seq![(Reliability::ReliableOrdered, 0u32, 0u32, 0u32, 0u8, None::<Split>, payload)]
    } else {
        fragments_of(payload, capacity, id)
    }
}

/// What queueing `payload` on a session did: it went out as numbered frames packed into
/// datagrams numbered on from the session's next sequence number, appended to what was
/// already queued.
pub open spec fn sent_payload(before: Session, after: Session, payload: Seq<u8>) -> bool {
    exists|bs: Seq<Seq<FrameView>>|
        {
            &&& #[trigger] flatten_batches(bs) == numbered(
                sent_frames(payload, fragment_capacity_spec(before.settings().payload_limit as nat), before.split_id()),
                before.counters().1,
                before.counters().2,
            )
            &&& after.queued() == before.queued() + frame_set_datagrams(bs, before.counters().0)
            &&& after.counters().0 == wrap_add(before.counters().0, bs.len())
            &&& after.counters().2 == wrap_add(before.counters().2, 1)
        }
}

/// A reorder buffer's state with its payloads read as bytes.
pub type OrderBytes = (u32, Map<u32, Seq<u8>>, u32);

/// The delivery pipeline a frame goes through: the duplicate filter, reassembly and the
/// reorder buffer.
pub type Pipeline = (DedupView, ReassemblerView, OrderBytes);

/// What one frame does to the pipeline and what it releases: a reliable frame already
/// seen is dropped; otherwise its fragment is reassembled, and a whole payload is
/// released at once when unordered, or through the reorder buffer when ordered.
pub open spec fn frame_step(p: Pipeline, f: FrameView, now: u64) -> (Pipeline, Result<Seq<Seq<u8>>, SessionError>) {
    let (d, r, o) = p;
    if reliable(f.0) && !(f.1 >= d.1 && !d.0.contains(f.1)) {
        (p, Ok(Seq::empty()))
    } else {
        let d2 = if reliable(f.0) {
            accept_spec(d, f.1)
        } else {
            d
        };
        let (r2, out) = push_spec(r, f, now);
        match out {
            Err(e) => ((d2, r2, o), Err(SessionError::Split(e))),
            Ok(None) => ((d2, r2, o), Ok(Seq::empty())),
            Ok(Some(b)) => if !ordered(f.0) {
                ((d2, r2, o), Ok(seq![b]))
            } else if f.3 < o.0 {
                ((d2, r2, o), Ok(Seq::empty()))
            } else if f.3 - o.0 >= o.2 {
                ((d2, r2, o), Err(SessionError::Order(OutOfWindow { index: f.3, expected: o.0 })))
            } else {
                let dr = drain_views(o.1.insert(f.3, b), o.0);
                ((d2, r2, (dr.2, dr.1, o.2)), Ok(dr.0))
            },
        }
    }
}

/// The frames of a datagram through the pipeline, in order, stopping at the first
/// refusal: the pipeline after, and every payload released.
pub open spec fn frames_fold(p: Pipeline, fs: Seq<FrameView>, now: u64) -> (Pipeline, Result<Seq<Seq<u8>>, SessionError>)
    decreases fs.len(),
{
    if fs.len() == 0 {
        (p, Ok(Seq::empty()))
    } else {
        let (p1, r1) = frames_fold(p, fs.drop_last(), now);
        match r1 {
            Err(e) => (p1, Err(e)),
            Ok(rel) => {
                let (p2, r2) = frame_step(p1, fs.last(), now);
                match r2 {
                    Err(e) => (p2, Err(e)),
                    Ok(more) => (p2, Ok(rel + more)),
                }
            },
        }
    }
}

/// Whether a payload is the application's.
pub open spec fn user_payload(p: Seq<u8>) -> bool {
    p.len() > 0 && p[0] >= USER_PACKET_START
}

/// The application's payloads among `ps`, in order.
pub open spec fn user_only(ps: Seq<Seq<u8>>) -> Seq<Seq<u8>>
    decreases ps.len(),
{
    if ps.len() == 0 {
        Seq::empty()
    } else if user_payload(ps.last()) {
        user_only(ps.drop_last()).push(ps.last())
    } else {
        user_only(ps.drop_last())
    }
}

/// Whether answering a released payload can fail: a connection request or a ping,
/// whose answer has to fit the outbox of an open session.
pub open spec fn answer_may_fail(p: Seq<u8>) -> bool {
    p.len() > 0 && (p[0] == ID_CONNECTION_REQUEST || p[0] == ID_CONNECTED_PING)
}

/// A refusal part way through a run of frames is the run's refusal.
proof fn lemma_fold_err(p: Pipeline, fs: Seq<FrameView>, k: int, now: u64)
    requires
        0 <= k <= fs.len(),
        frames_fold(p, fs.take(k), now).1 is Err,
    ensures
        frames_fold(p, fs, now).1 is Err,
    decreases fs.len() - k,
{
    if k < fs.len() {
        assert(fs.take(k + 1).drop_last() =~= fs.take(k));
        lemma_fold_err(p, fs, k + 1, now);
    } else {
        assert(fs.take(k) =~= fs);
    }
}

/// What a run of frames releases starts with what its first `k` release.
proof fn lemma_fold_prefix(p: Pipeline, fs: Seq<FrameView>, k: int, now: u64)
    requires
        0 <= k <= fs.len(),
        frames_fold(p, fs.take(k), now).1 is Ok,
        frames_fold(p, fs, now).1 is Ok,
    ensures
        frames_fold(p, fs.take(k), now).1->Ok_0.is_prefix_of(frames_fold(p, fs, now).1->Ok_0),
    decreases fs.len() - k,
{
    if k < fs.len() {
        assert(fs.take(k + 1).drop_last() =~= fs.take(k));
        if frames_fold(p, fs.take(k + 1), now).1 is Err {
            lemma_fold_err(p, fs, k + 1, now);
        } else {
            lemma_fold_prefix(p, fs, k + 1, now);
        }
    } else {
        assert(fs.take(k) =~= fs);
    }
}

/// Whether a duplicate filter refuses `index`.
pub open spec fn refuses(d: DedupView, index: u32) -> bool {
    !(index >= d.1 && !d.0.contains(index))
}

/// Once a run of reliable frames has gone through the pipeline, the filter refuses
/// every one of them.
proof fn lemma_fold_marks_seen(p: Pipeline, fs: Seq<FrameView>, now: u64)
    requires
        forall|j: int| 0 <= j < fs.len() ==> reliable((#[trigger] fs[j]).0),
        frames_fold(p, fs, now).1 is Ok,
    ensures
        forall|j: int| 0 <= j < fs.len() ==> refuses(frames_fold(p, fs, now).0.0, (#[trigger] fs[j]).1),
    decreases fs.len(),
{
    if fs.len() > 0 {
        let init = fs.drop_last();
        let f = fs.last();
        let (p1, r1) = frames_fold(p, init, now);
        assert(forall|j: int| 0 <= j < init.len() ==> reliable((#[trigger] init[j]).0)) by {
            assert forall|j: int| 0 <= j < init.len() implies reliable((#[trigger] init[j]).0) by {
                assert(init[j] == fs[j]);
            }
        }
        lemma_fold_marks_seen(p, init, now);
        let d1 = p1.0;
        let d2 = frames_fold(p, fs, now).0.0;
        let fresh = f.1 >= d1.1 && !d1.0.contains(f.1);
        if fresh {
            assert(d2 == accept_spec(d1, f.1));
            lemma_accept_once(d1, f.1);
            assert forall|j: int| 0 <= j < fs.len() implies refuses(d2, (#[trigger] fs[j]).1) by {
                if j < init.len() {
                    assert(fs[j] == init[j]);
                    lemma_refused_stays_refused(d1, fs[j].1, f.1);
                }
            }
        } else {
            assert(d2 == d1);
            assert forall|j: int| 0 <= j < fs.len() implies refuses(d2, (#[trigger] fs[j]).1) by {
                if j < init.len() {
                    assert(fs[j] == init[j]);
                }
            }
        }
    }
}

/// Frames the filter refuses all pass through the pipeline releasing nothing and
/// changing nothing.
proof fn lemma_fold_refused(p: Pipeline, fs: Seq<FrameView>, now: u64)
    requires
        forall|j: int| 0 <= j < fs.len() ==> reliable((#[trigger] fs[j]).0) && refuses(p.0, fs[j].1),
    ensures
        frames_fold(p, fs, now) == (p, Ok::<Seq<Seq<u8>>, SessionError>(Seq::empty())),
    decreases fs.len(),
{
    if fs.len() > 0 {
        let init = fs.drop_last();
        assert forall|j: int| 0 <= j < init.len() implies reliable((#[trigger] init[j]).0) && refuses(p.0, init[j].1) by {
            assert(init[j] == fs[j]);
        }
        lemma_fold_refused(p, init, now);
        assert(Seq::<Seq<u8>>::empty() + Seq::<Seq<u8>>::empty() =~= Seq::<Seq<u8>>::empty());
    }
}

/// A datagram of reliable frames is delivered once: fed to a session again after it was
/// taken, it delivers nothing, though its sequence number is owed an acknowledgement
/// again.
pub proof fn lemma_no_redelivery(
    s0: Session,
    s1: Session,
    s2: Session,
    bytes: Seq<u8>,
    now: u64,
    later: u64,
    first: Result<Vec<Vec<u8>>, SessionError>,
    second: Result<Vec<Vec<u8>>, SessionError>,
)
    requires
        received(s0, s1, bytes, now, first),
        received(s1, s2, bytes, later, second),
        first is Ok,
        datagram_read(bytes) matches Ok(DatagramView::FrameSet(_, fs)) && forall|j: int|
            0 <= j < fs.len() ==> reliable((#[trigger] fs[j]).0),
    ensures
        second matches Ok(v) ==> v@.len() == 0,
{
    let fs = datagram_read(bytes)->Ok_0->FrameSet_1;
    let (p1, out1) = frames_fold(s0.pipeline(), fs, now);
    assert(out1 is Ok);
    assert(s1.pipeline() == p1);
    lemma_fold_marks_seen(s0.pipeline(), fs, now);
    assert forall|j: int| 0 <= j < fs.len() implies reliable((#[trigger] fs[j]).0) && refuses(p1.0, fs[j].1) by {}
    lemma_fold_refused(p1, fs, later);
    if s1.current_state() != State::Closed {
        if second is Ok {
            let v = second->Ok_0;
            assert(v@.map_values(|q: Vec<u8>| q@) == user_only(Seq::<Seq<u8>>::empty()));
            assert(v@.map_values(|q: Vec<u8>| q@).len() == v@.len());
        }
    }
}

/// Whether `after` and `res` are what a session `before` becomes and returns when fed
/// the datagram `bytes` at `now`: a closed session refuses it unchanged; an open one
/// hears from its peer, answers acknowledgements and negative acknowledgements, and owes
/// an acknowledgement for each frame set, delivering only application payloads.
pub open spec fn received(
    before: Session,
    after: Session,
    bytes: Seq<u8>,
    now: u64,
    res: Result<Vec<Vec<u8>>, SessionError>,
) -> bool {
    &&& (before.current_state() == State::Closed ==> res == Err::<Vec<Vec<u8>>, SessionError>(SessionError::Closed)
        && after == before)
    &&& (before.current_state() != State::Closed ==> {
        &&& after.clock() == (before.clock().0, now, before.clock().2)
        &&& after.settings() == before.settings()
        &&& after.endpoints() == before.endpoints()
        &&& before.queued().is_prefix_of(after.queued())
        &&& rank(before.current_state()) <= rank(after.current_state())
        &&& after.close_reason() is Some ==> after.close_reason() == Some(Closed::ByPeer)
        &&& res matches Ok(v) ==> all_user_payloads(v@)
        &&& match datagram_read(bytes) {
            Err(e) => res == Err::<Vec<Vec<u8>>, SessionError>(SessionError::Datagram(e))
                && after.queued() == before.queued() && after.acks_due() == before.acks_due()
                && after.current_state() == before.current_state()
                && after.counters() == before.counters()
                && after.retransmission() == before.retransmission(),
            Ok(DatagramView::Ack(ranges)) => {
                let a = ack_ranges(before.retransmission().2, before.retransmission().1, ranges, now);
                &&& res matches Ok(v) && v@.len() == 0
                &&& after.queued() == before.queued()
                &&& after.acks_due() == before.acks_due()
                &&& after.current_state() == before.current_state()
                &&& after.retransmission() == (before.retransmission().0, a.1, a.0, before.retransmission().3)
            },
            Ok(DatagramView::Nack(ranges)) => {
                let r = nack_ranges(before.retransmission().2, ranges, now);
                &&& res matches Ok(v) && v@.len() == 0
                &&& after.queued() == queue_within(before.queued(), r.1, before.settings().max_outbox)
                &&& after.acks_due() == before.acks_due()
                &&& after.current_state() == before.current_state()
                &&& after.retransmission() == (
                    before.retransmission().0,
                    before.retransmission().1,
                    r.0,
                    before.retransmission().3 || over_retried(r.0, before.retransmission().0.2),
                )
            },
            Ok(DatagramView::FrameSet(sequence, frames)) => {
        let (p2, out) = frames_fold(before.pipeline(), frames, now);
        &&& after.acks_due() == before.acks_due().push(sequence)
        &&& out is Err ==> res is Err
        &&& res matches Ok(v) ==> (out matches Ok(rel) && v@.map_values(|q: Vec<u8>| q@) == user_only(rel)
            && after.pipeline() == p2)
        &&& (out matches Ok(rel) && (forall|i: int| 0 <= i < rel.len() ==> !answer_may_fail(#[trigger] rel[i])))
            ==> res is Ok
        &&& out matches Ok(rel) ==> (res is Err ==> exists|i: int|
            0 <= i < rel.len() && answer_may_fail(#[trigger] rel[i]) && !send_fits(
                after,
                reply_to(after, rel[i], now),
            ))
    },
        }
    })
}

/// Why a session is closed once a tick at `now` has run, if it is: a closed session
/// keeps its reason; an open one closes as timed out when the peer was silent too long,
/// as unreachable when it stopped acknowledging, and otherwise keeps what it had.
pub open spec fn tick_close(s: Session, now: u64) -> Option<Closed> {
    if s.current_state() == State::Closed {
        s.close_reason()
    } else if elapsed(now, s.clock().1) >= s.settings().timeout {
        Some(Closed::Timeout)
    } else if s.retransmission().3 {
        Some(Closed::Unreachable)
    } else {
        s.close_reason()
    }
}

/// Whether a session takes `payload`: it is open, and the frames the payload is cut
/// into fit both the outbox and the retransmission window.
pub open spec fn send_fits(s: Session, payload: Seq<u8>) -> bool {
    let frames = sent_frames(
        payload,
        fragment_capacity_spec(s.settings().payload_limit as nat),
        s.split_id(),
    );
    &&& s.current_state() != State::Closed
    &&& s.queued().len() + frames.len() <= s.settings().max_outbox
    &&& s.retransmission().2.len() + frames.len() <= s.retransmission().0.3
}

/// The reply a connection request or a ping calls for from session `s`: the request
/// accepted, or the pong.
pub open spec fn reply_to(s: Session, p: Seq<u8>, now: u64) -> Seq<u8> {
    if p.len() > 0 && p[0] == ID_CONNECTION_REQUEST {
        request_accepted_bytes(
            s.endpoints().0,
            s.endpoints().1,
            request_time_of(p),
            millis_since(s.clock().0, now),
        )
    } else {
        pong_bytes(ping_time_of(p), millis_since(s.clock().0, now))
    }
}

/// A state's place in the order a session moves through.
pub open spec fn rank(s: State) -> int {
    match s {
        State::Connecting => 0,
        State::Connected => 1,
        State::Closed => 2,
    }
}

/// The timestamp a `ConnectionRequest` carries, after its id and the client's GUID, or
/// zero when it is too short to carry one.
pub open spec fn request_time_of(p: Seq<u8>) -> i64 {
    if p.len() >= 17 {
        be64_value(p.skip(9)) as i64
    } else {
        0
    }
}

/// The timestamp a `ConnectedPing` carries, or zero when it is too short to carry one.
pub open spec fn ping_time_of(p: Seq<u8>) -> i64 {
    if p.len() >= 9 {
        be64_value(p.skip(1)) as i64
    } else {
        0
    }
}

/// The `ConnectedPong` answering a ping sent at `time`.
pub open spec fn pong_bytes(time: i64, now_ms: i64) -> Seq<u8> {
    seq![ID_CONNECTED_PONG] + be64(time as u64) + be64(now_ms as u64)
}

/// What queueing resent datagrams onto an outbox does: as many as fit under the cap,
/// in order.
pub open spec fn queue_within(q: Seq<Seq<u8>>, more: Seq<Seq<u8>>, cap: usize) -> Seq<Seq<u8>> {
    let room: int = if q.len() < cap {
        cap - q.len()
    } else {
        0
    };
    q + more.take(if more.len() < room {
        more.len() as int
    } else {
        room
    })
}

/// Whether every payload starts with an id at or above the application's range.
pub open spec fn all_user_payloads(ps: Seq<Vec<u8>>) -> bool {
    forall|i: int| 0 <= i < ps.len() ==> (#[trigger] ps[i])@.len() > 0 && ps[i]@[0] >= USER_PACKET_START
}

/// Whether a sequence number falls inside one of the ranges.
pub open spec fn covered(ranges: Seq<(u32, u32)>, x: u32) -> bool {
    exists|i: int| 0 <= i < ranges.len() && (#[trigger] ranges[i]).0 <= x <= ranges[i].1
}

/// Whether `ranges` are the maximal runs of the numbers in `s`: each well formed, in
/// increasing order with a gap between neighbours, and together covering exactly the
/// numbers in `s`.
pub open spec fn runs_of(ranges: Seq<(u32, u32)>, s: Seq<u32>) -> bool {
    &&& forall|i: int| 0 <= i < ranges.len() ==> (#[trigger] ranges[i]).0 <= ranges[i].1
    &&& forall|i: int| 0 <= i < ranges.len() - 1 ==> (#[trigger] ranges[i]).1 + 1 < ranges[i + 1].0
    &&& forall|x: u32| covered(ranges, x) <==> s.contains(x)
}

/// Whether a sequence strictly increases.
pub open spec fn increasing(s: Seq<u32>) -> bool {
    forall|i: int, j: int| 0 <= i < j < s.len() ==> s[i] < s[j]
}

/// One peer's connection.
#[derive(Debug)]
pub struct Session {
    config: Config,
    peer: Address,
    local: Address,
    state: State,
    closed: Option<Closed>,
    next_sequence: u32,
    next_reliable: u32,
    next_order: u32,
    splitter: Splitter,
    retransmitter: Retransmitter,
    outbox: VecDeque<Vec<u8>>,
    reassembler: Reassembler,
    ordering: OrderBuffer,
    dedup: Dedup,
    pending_acks: Vec<u32>,
    started: u64,
    last_heard: u64,
    last_ping: u64,
}

impl Session {
    /// Whether the session's parts agree with each other: the retransmission floor is
    /// not above its ceiling, and the state is closed exactly when there is a reason.
    pub closed spec fn well_formed(&self) -> bool {
        &&& self.retransmitter@.0.0 <= self.retransmitter@.0.1
        &&& self.retransmitter@.0.3 == self.config.retransmit.max_in_flight
        &&& (self.state == State::Closed) == (self.closed is Some)
    }

    /// How far the session has got.
    pub closed spec fn current_state(&self) -> State {
        self.state
    }

    /// Why the session finished, once it has.
    pub closed spec fn close_reason(&self) -> Option<Closed> {
        self.closed
    }

    /// The datagrams queued for the socket, oldest first.
    pub closed spec fn queued(&self) -> Seq<Seq<u8>> {
        outbox_view(self.outbox@)
    }

    /// The settings the session was opened with.
    pub closed spec fn settings(&self) -> Config {
        self.config
    }

    /// The peer's address and our own.
    pub closed spec fn endpoints(&self) -> (AddressView, AddressView) {
        (self.peer@, self.local@)
    }

    /// When the session opened, when the peer was last heard from, and when it was
    /// last pinged.
    pub closed spec fn clock(&self) -> (u64, u64, u64) {
        (self.started, self.last_heard, self.last_ping)
    }

    /// Sequence numbers received and not yet acknowledged.
    pub closed spec fn acks_due(&self) -> Seq<u32> {
        self.pending_acks@
    }

    /// The next datagram sequence number, reliable index and order index.
    pub closed spec fn counters(&self) -> (u32, u32, u32) {
        (self.next_sequence, self.next_reliable, self.next_order)
    }

    /// The retransmission state.
    pub closed spec fn retransmission(&self) -> RetransmitView {
        self.retransmitter@
    }

    /// The delivery pipeline: duplicate filter, reassembly and reorder buffer.
    pub closed spec fn pipeline(&self) -> Pipeline {
        (self.dedup@, self.reassembler@, (self.ordering@.0, views_of(self.ordering@.1), self.ordering@.2))
    }

    /// The split id the next split payload gets.
    pub closed spec fn split_id(&self) -> u16 {
        self.splitter.next_id_spec()
    }

    /// A session for a peer that has just finished opening a connection.
    pub fn new(peer: Address, local: Address, config: Config, now: u64) -> (s: Self)
        requires
            config.retransmit.min_rto <= config.retransmit.max_rto,
        ensures
            s.current_state() == State::Connecting,
            s.close_reason() is None,
            s.queued() == Seq::<Seq<u8>>::empty(),
            s.settings() == config,
            s.endpoints() == (peer@, local@),
            s.clock() == (now, now, now),
            s.acks_due() == Seq::<u32>::empty(),
            s.counters() == (0u32, 0u32, 0u32),
            s.retransmission().2.len() == 0,
            s.well_formed(),
    {
        let s = Session {
            retransmitter: Retransmitter::new(config.retransmit),
            reassembler: Reassembler::new(config.split),
            ordering: OrderBuffer::new(config.order_window),
            dedup: Dedup::new(config.dedup_window),
            config,
            peer,
            local,
            state: State::Connecting,
            closed: None,
            next_sequence: 0,
            next_reliable: 0,
            next_order: 0,
            splitter: Splitter::default(),
            outbox: VecDeque::new(),
            pending_acks: Vec::new(),
            started: now,
            last_heard: now,
            last_ping: now,
        };
        proof {
            assert(outbox_view(s.outbox@) =~= Seq::<Seq<u8>>::empty());
        }
        s
    }

    /// How far the handshake has got.
    pub fn state(&self) -> (s: State)
        ensures
            s == self.current_state(),
    {
        self.state
    }

    /// Why the session finished, once it has.
    pub fn closed_because(&self) -> (r: Option<Closed>)
        ensures
            r == self.close_reason(),
    {
        self.closed
    }

    /// The peer's address.
    pub fn peer(&self) -> (a: Address)
        ensures
            a@ == self.endpoints().0,
    {
        self.peer
    }

    /// Smoothed round trip time in nanoseconds, once an acknowledgement has measured one.
    pub fn rtt(&self) -> (r: Option<u64>)
        ensures
            r == self.retransmission().1.0,
    {
        self.retransmitter.rtt().smoothed()
    }

    /// Datagrams sent but not yet acknowledged.
    pub fn in_flight(&self) -> (n: usize)
        ensures
            n == self.retransmission().2.len(),
    {
        self.retransmitter.in_flight()
    }

    /// Whether the session is finished and should be dropped.
    pub fn is_closed(&self) -> (b: bool)
        ensures
            b == (self.current_state() == State::Closed),
    {
        self.state == State::Closed
    }

    /// Milliseconds since the session opened, as RakNet timestamps them.
    fn now_millis(&self, now: u64) -> (ms: i64)
        ensures
            ms == millis_since(self.clock().0, now),
    {
        let d: u64 = if now >= self.started {
            now - self.started
        } else {
            0
        };
        (d / 1_000_000) as i64
    }

    /// The next datagram for the socket.
    pub fn poll_transmit(&mut self) -> (d: Option<Vec<u8>>)
        requires
            old(self).well_formed(),
        ensures
            final(self).well_formed(),
            old(self).queued().len() == 0 ==> d is None && final(self).queued() == old(self).queued(),
            old(self).queued().len() > 0 ==> (d matches Some(v) && v@ == old(self).queued()[0]
                && final(self).queued() == old(self).queued().drop_first()),
            final(self).current_state() == old(self).current_state(),
            final(self).close_reason() == old(self).close_reason(),
            final(self).clock() == old(self).clock(),
            final(self).acks_due() == old(self).acks_due(),
            final(self).counters() == old(self).counters(),
            final(self).settings() == old(self).settings(),
            final(self).endpoints() == old(self).endpoints(),
    {
        let d = self.outbox.pop_front();
        proof {
            assert(outbox_view(self.outbox@) =~= if old(self).outbox@.len() == 0 {
                outbox_view(old(self).outbox@)
            } else {
                outbox_view(old(self).outbox@).drop_first()
            });
        }
        d
    }
}

impl Session {
    /// Numbers frames and packs them into datagrams no larger than the payload limit,
    /// then queues them all — or, when the outbox or the retransmission window has no
    /// room for all of them, refuses the whole payload and changes nothing.
    fn send_frames(&mut self, frames: Vec<Frame>, now: u64) -> (res: Result<(), SessionError>)
        requires
            old(self).well_formed(),
            forall|i: int| 0 <= i < frames@.len() ==> #[trigger] frames@[i].payload@.len() <= 8191,
        ensures
            final(self).pipeline() == old(self).pipeline(),
            final(self).well_formed(),
            final(self).current_state() == old(self).current_state(),
            final(self).close_reason() == old(self).close_reason(),
            final(self).clock() == old(self).clock(),
            final(self).acks_due() == old(self).acks_due(),
            final(self).settings() == old(self).settings(),
            final(self).endpoints() == old(self).endpoints(),
            final(self).split_id() == old(self).split_id(),
            old(self).queued().len() + frames@.len() <= old(self).settings().max_outbox
                && old(self).retransmission().2.len() + frames@.len() <= old(self).retransmission().0.3 ==> res is Ok,
            res is Err ==> (res == Err::<(), SessionError>(SessionError::OutboxFull) || res == Err::<(), SessionError>(
                SessionError::Window(WindowFull),
            )) && final(self).queued() == old(self).queued() && final(self).counters() == old(self).counters()
                && final(self).retransmission() == old(self).retransmission(),
            res is Ok ==> exists|bs: Seq<Seq<FrameView>>|
                {
                    &&& #[trigger] flatten_batches(bs) == numbered(
                        frames_view(frames@),
                        old(self).counters().1,
                        old(self).counters().2,
                    )
                    &&& final(self).queued() == old(self).queued() + frame_set_datagrams(bs, old(self).counters().0)
                    &&& final(self).counters() == (
                        wrap_add(old(self).counters().0, bs.len()),
                        wrap_add(old(self).counters().1, frames@.len()),
                        wrap_add(old(self).counters().2, 1),
                    )
                },
    {
        let budget = self.config.payload_limit.saturating_sub(DATAGRAM_HEADER_LEN);
        let ghost r0 = self.next_reliable;
        let ghost o0 = self.next_order;
        let ghost all = frames_view(frames@);
        let ghost fs = numbered(all, r0, o0);
        let total: usize = frames.len();
        let ghost n = total as nat;
        let mut frames = frames;
        let mut batches: Vec<Vec<Frame>> = Vec::new();
        let mut batch: Vec<Frame> = Vec::new();
        let mut used: usize = 0;
        let mut reliable = self.next_reliable;
        let order = self.next_order;
        let mut k: usize = 0;
        proof {
            assert(all.skip(0) =~= all);
            assert(fs.take(0) =~= Seq::<FrameView>::empty());
            assert(batches_view(batches@) =~= Seq::<Seq<FrameView>>::empty());
            assert(flatten_batches(batches_view(batches@)) =~= Seq::<FrameView>::empty());
            assert(frames_view(batch@) =~= Seq::<FrameView>::empty());
        }
        while frames.len() > 0
            invariant
                fs == numbered(all, r0, o0),
                n == all.len(),
                n <= usize::MAX,
                k + frames@.len() == n,
                frames_view(frames@) == all.skip(k as int),
                forall|i: int| 0 <= i < frames@.len() ==> #[trigger] frames@[i].payload@.len() <= 8191,
                flatten_batches(batches_view(batches@)) + frames_view(batch@) == fs.take(k as int),
                batches@.len() + (if batch@.len() > 0 {
                    1int
                } else {
                    0int
                }) <= k,
                reliable == wrap_add(r0, k as nat),
                order == o0,
                batch@.len() == 0 ==> used == 0,
                used <= budget || used <= 8191 + 26,
            decreases frames@.len(),
        {
            let ghost rest = frames_view(frames@);
            let ghost fb = frames@;
            let mut frame = frames.remove(0);
            proof {
                assert(frame == fb[0]);
                assert(rest[0] == fb[0]@);
                assert(all.skip(k as int)[0] == all[k as int]);
            }
            frame.reliable_index = reliable;
            reliable = bump(reliable);
            proof {
                lemma_wrap_step(r0, k as nat);
            }
            frame.order_index = order;
            proof {
                assert(frame@ == fs[k as int]);
            }
            let size = frame.encoded_len();
            if batch.len() > 0 && (used > budget || size > budget - used) {
                let mut full: Vec<Frame> = Vec::new();
                std::mem::swap(&mut full, &mut batch);
                let ghost bv = batches_view(batches@);
                batches.push(full);
                proof {
                    assert(batches_view(batches@) =~= bv.push(frames_view(full@)));
                    assert(batches_view(batches@).drop_last() =~= bv);
                    assert(frames_view(batch@) =~= Seq::<FrameView>::empty());
                    assert(flatten_batches(batches_view(batches@)) + frames_view(batch@) =~= fs.take(k as int));
                }
                used = 0;
            }
            used = used + size;
            let ghost before_batch = frames_view(batch@);
            batch.push(frame);
            proof {
                assert(frames_view(batch@) =~= before_batch.push(fs[k as int]));
                assert(fs.take(k + 1) =~= fs.take(k as int).push(fs[k as int]));
                assert(all.skip(k + 1) =~= all.skip(k as int).drop_first());
                assert(frames_view(frames@) =~= rest.drop_first());
            }
            k = k + 1;
        }
        if batch.len() > 0 {
            let ghost bv = batches_view(batches@);
            batches.push(batch);
            proof {
                assert(batches_view(batches@) =~= bv.push(frames_view(batch@)));
                assert(batches_view(batches@).drop_last() =~= bv);
            }
        } else {
            proof {
                assert(flatten_batches(batches_view(batches@)) + frames_view(batch@) =~= flatten_batches(
                    batches_view(batches@),
                ));
            }
        }
        proof {
            assert(fs.take(n as int) =~= fs);
        }
        let ghost bs = batches_view(batches@);
        let count = batches.len();
        proof {
            assert(count <= n);
            assert(flatten_batches(bs) == fs);
        }
        let queued_now = self.outbox.len();
        if count > 0 && (queued_now >= self.config.max_outbox || count > self.config.max_outbox - queued_now) {
            return Err(SessionError::OutboxFull);
        }
        let held = self.retransmitter.in_flight();
        if count > 0 && (held >= self.config.retransmit.max_in_flight || count > self.config.retransmit.max_in_flight
            - held) {
            return Err(SessionError::Window(WindowFull));
        }
        let ghost q0 = self.queued();
        let ghost s0 = self.next_sequence;
        let ghost h0 = self.retransmitter@.2.len();
        let mut j: usize = 0;
        proof {
            assert(frame_set_datagrams(bs.take(0), s0) =~= Seq::<Seq<u8>>::empty());
            assert(q0 + Seq::<Seq<u8>>::empty() =~= q0);
            assert(bs.skip(0) =~= bs);
        }
        while batches.len() > 0
            invariant
                self.well_formed(),
                self.current_state() == old(self).current_state(),
                self.close_reason() == old(self).close_reason(),
                self.clock() == old(self).clock(),
                self.acks_due() == old(self).acks_due(),
                self.settings() == old(self).settings(),
                self.endpoints() == old(self).endpoints(),
                self.split_id() == old(self).split_id(),
                self.next_reliable == old(self).counters().1,
                self.next_order == old(self).counters().2,
                q0 == old(self).queued(),
                s0 == old(self).counters().0,
                bs.len() == count,
                j + batches@.len() == count,
                batches_view(batches@) == bs.skip(j as int),
                self.queued() == q0 + frame_set_datagrams(bs.take(j as int), s0),
                self.next_sequence == wrap_add(s0, j as nat),
                self.retransmitter@.2.len() <= h0 + j,
                h0 + count <= self.retransmitter@.0.3,
                self.pipeline() == old(self).pipeline(),
            decreases batches@.len(),
        {
            let ghost rest = batches@;
            let b = batches.remove(0);
            proof {
                assert(batches_view(rest)[0] == frames_view(b@));
                assert(bs.skip(j as int)[0] == bs[j as int]);
                assert(batches_view(batches@) =~= batches_view(rest).drop_first());
                assert(bs.skip(j + 1) =~= bs.skip(j as int).drop_first());
            }
            let sequence = self.next_sequence;
            self.next_sequence = bump(self.next_sequence);
            proof {
                lemma_wrap_step(s0, j as nat);
            }
            let mut w = Writer::new();
            let d = Datagram::FrameSet(FrameSet { sequence, frames: b });
            d.encode(&mut w);
            let datagram = w.finish();
            let copy = datagram.clone();
            proof {
                assert(copy@ =~= datagram@);
            }
            let ghost es = self.retransmitter@.2;
            match self.retransmitter.track(sequence, copy, now) {
                Ok(()) => {},
                Err(e) => return Err(SessionError::Window(e)),
            }
            proof {
                crate::raknet::retransmit::lemma_placed_len(es, (sequence, copy@, now, 0u32));
            }
            let ghost before = self.outbox@;
            self.outbox.push_back(datagram);
            proof {
                assert(outbox_view(self.outbox@) =~= outbox_view(before).push(datagram@));
                assert(bs.take(j + 1) =~= bs.take(j as int).push(bs[j as int]));
                assert(frame_set_datagrams(bs.take(j + 1), s0) =~= frame_set_datagrams(bs.take(j as int), s0).push(
                    datagram_bytes(DatagramView::FrameSet(wrap_add(s0, j as nat), bs[j as int])),
                ));
            }
            j = j + 1;
        }
        self.next_reliable = reliable;
        self.next_order = bump(self.next_order);
        proof {
            assert(bs.take(count as int) =~= bs);
            assert(flatten_batches(bs) == numbered(all, r0, o0));
            assert(self.queued() == q0 + frame_set_datagrams(bs, s0));
        }
        Ok(())
    }
}

impl Session {
    /// Queues a payload for the peer, splitting it if it does not fit.
    ///
    /// The payload goes out as consecutive reliable indices under one order index, in
    /// datagrams numbered on from the last one sent. A payload that does not fit in
    /// the outbox or the retransmission window is refused whole: a half-sent payload
    /// would have the peer reassembling a rest that never comes.
    pub fn send(&mut self, payload: Vec<u8>, now: u64) -> (res: Result<(), SessionError>)
        requires
            old(self).well_formed(),
        ensures
            final(self).pipeline() == old(self).pipeline(),
            final(self).well_formed(),
            old(self).current_state() == State::Closed ==> res == Err::<(), SessionError>(SessionError::Closed)
                && *final(self) == *old(self),
            final(self).current_state() == old(self).current_state(),
            final(self).close_reason() == old(self).close_reason(),
            final(self).clock() == old(self).clock(),
            final(self).acks_due() == old(self).acks_due(),
            final(self).settings() == old(self).settings(),
            final(self).endpoints() == old(self).endpoints(),
            old(self).queued().is_prefix_of(final(self).queued()),
            res is Ok ==> sent_payload(*old(self), *final(self), payload@),
            res is Err ==> final(self).queued() == old(self).queued() && final(self).counters() == old(self).counters()
                && final(self).retransmission() == old(self).retransmission(),
            send_fits(*old(self), payload@) ==> res is Ok,
    {
        if self.state == State::Closed {
            return Err(SessionError::Closed);
        }
        let capacity = fragment_capacity(self.config.payload_limit);
        let ghost id = self.splitter.next_id_spec();
        let ghost p = payload@;
        let frames = self.splitter.split(payload, capacity);
        proof {
            assert(split::frames_view(frames@) =~= frames_view(frames@));
            if capacity > 0 && p.len() > capacity {
                lemma_pieces_fit(p, capacity as nat, id);
                assert forall|i: int| 0 <= i < frames@.len() implies #[trigger] frames@[i].payload@.len() <= 8191 by {
                    assert(frames_view(frames@)[i] == frames@[i]@);
                }
            } else if capacity > 0 {
                assert forall|i: int| 0 <= i < frames@.len() implies #[trigger] frames@[i].payload@.len() <= 8191 by {
                    assert(frames_view(frames@)[i] == frames@[i]@);
                }
            }
            assert(frames_view(frames@) == sent_frames(p, capacity as nat, id));
        }
        self.send_frames(frames, now)
    }
}

impl Session {
    /// `ConnectionRequestAccepted` for this peer, echoing the request's timestamp.
    fn encode_request_accepted(&self, request_time: i64, now: u64) -> (out: Vec<u8>)
        ensures
            out@ == request_accepted_bytes(
                self.endpoints().0,
                self.endpoints().1,
                request_time,
                millis_since(self.clock().0, now),
            ),
    {
        let mut w = Writer::new();
        w.u8(ID_CONNECTION_REQUEST_ACCEPTED);
        write_address(&mut w, self.peer);
        w.u16(0);
        let ghost head = w@;
        let mut i: usize = 0;
        proof {
            assert(head + repeat_address(self.local@, 0) =~= head);
        }
        while i < SYSTEM_ADDRESS_COUNT
            invariant
                i <= SYSTEM_ADDRESS_COUNT,
                w@ == head + repeat_address(self.local@, i as nat),
            decreases SYSTEM_ADDRESS_COUNT - i,
        {
            write_address(&mut w, self.local);
            proof {
                assert(w@ =~= head + repeat_address(self.local@, (i + 1) as nat));
            }
            i = i + 1;
        }
        let ms = self.now_millis(now);
        w.i64(request_time).i64(ms);
        let out = w.finish();
        proof {
            assert(out@ =~= request_accepted_bytes(self.peer@, self.local@, request_time, ms));
        }
        out
    }

    /// Answers RakNet's own packets, and hands back anything meant for the caller.
    fn handle_internal(&mut self, payload: Vec<u8>, now: u64) -> (res: Result<Option<Vec<u8>>, SessionError>)
        requires
            old(self).well_formed(),
        ensures
            final(self).well_formed(),
            final(self).clock() == old(self).clock(),
            final(self).acks_due() == old(self).acks_due(),
            final(self).settings() == old(self).settings(),
            final(self).endpoints() == old(self).endpoints(),
            final(self).pipeline() == old(self).pipeline(),
            old(self).queued().is_prefix_of(final(self).queued()),
            rank(old(self).current_state()) <= rank(final(self).current_state()),
            res matches Ok(Some(p)) ==> p@ == payload@ && payload@.len() > 0 && payload@[0] >= USER_PACKET_START,
            res is Err ==> answer_may_fail(payload@) && !send_fits(*final(self), reply_to(*final(self), payload@, now)),
            payload@.len() == 0 ==> (res matches Ok(None) && *final(self) == *old(self)),
            payload@.len() > 0 ==> {
                let id = payload@[0];
                &&& id == ID_CONNECTION_REQUEST ==> final(self).current_state() == old(self).current_state()
                    && final(self).close_reason() == old(self).close_reason() && match res {
                    Ok(r) => r is None && sent_payload(
                        *old(self),
                        *final(self),
                        request_accepted_bytes(
                            old(self).endpoints().0,
                            old(self).endpoints().1,
                            request_time_of(payload@),
                            millis_since(old(self).clock().0, now),
                        ),
                    ),
                    Err(e) => old(self).current_state() == State::Closed ==> e == SessionError::Closed,
                }
                &&& id == ID_CONNECTION_REQUEST && send_fits(
                    *old(self),
                    request_accepted_bytes(
                        old(self).endpoints().0,
                        old(self).endpoints().1,
                        request_time_of(payload@),
                        millis_since(old(self).clock().0, now),
                    ),
                ) ==> res is Ok
                &&& id == ID_NEW_INCOMING_CONNECTION ==> (res matches Ok(None) && final(self).current_state() == (
                if old(self).current_state() == State::Closed {
                    State::Closed
                } else {
                    State::Connected
                }) && final(self).close_reason() == old(self).close_reason() && final(self).queued()
                    == old(self).queued())
                &&& id == ID_CONNECTED_PING ==> final(self).current_state() == old(self).current_state()
                    && final(self).close_reason() == old(self).close_reason() && match res {
                    Ok(r) => r is None && sent_payload(
                        *old(self),
                        *final(self),
                        pong_bytes(ping_time_of(payload@), millis_since(old(self).clock().0, now)),
                    ),
                    Err(e) => old(self).current_state() == State::Closed ==> e == SessionError::Closed,
                }
                &&& id == ID_CONNECTED_PING && send_fits(
                    *old(self),
                    pong_bytes(ping_time_of(payload@), millis_since(old(self).clock().0, now)),
                ) ==> res is Ok
                &&& id == ID_DISCONNECT ==> (res matches Ok(None) && final(self).current_state() == State::Closed
                    && final(self).close_reason() == (if old(self).close_reason() is Some {
                    old(self).close_reason()
                } else {
                    Some(Closed::ByPeer)
                }) && final(self).queued() == old(self).queued())
                &&& id != ID_CONNECTION_REQUEST && id != ID_NEW_INCOMING_CONNECTION && id != ID_CONNECTED_PING
                    && id != ID_DISCONNECT ==> *final(self) == *old(self) && (if id >= USER_PACKET_START {
                    res matches Ok(Some(_))
                } else {
                    res matches Ok(None)
                })
            },
    {
        if payload.len() == 0 {
            return Ok(None);
        }
        let id = payload[0];
        if id == ID_CONNECTION_REQUEST {
            let time: i64 = if payload.len() >= 17 {
                read_i64(&payload, 9)
            } else {
                0
            };
            let reply = self.encode_request_accepted(time, now);
            match self.send(reply, now) {
                Ok(()) => Ok(None),
                Err(e) => Err(e),
            }
        } else if id == ID_NEW_INCOMING_CONNECTION {
            if self.state != State::Closed {
                self.state = State::Connected;
            }
            Ok(None)
        } else if id == ID_CONNECTED_PING {
            let time: i64 = if payload.len() >= 9 {
                read_i64(&payload, 1)
            } else {
                0
            };
            let ms = self.now_millis(now);
            let mut w = Writer::new();
            w.u8(ID_CONNECTED_PONG).i64(time).i64(ms);
            let pong = w.finish();
            proof {
                assert(pong@ =~= pong_bytes(time, ms));
            }
            match self.send(pong, now) {
                Ok(()) => Ok(None),
                Err(e) => Err(e),
            }
        } else if id == ID_DISCONNECT {
            if self.state != State::Closed {
                self.state = State::Closed;
                self.closed = Some(Closed::ByPeer);
            }
            Ok(None)
        } else if id >= USER_PACKET_START {
            Ok(Some(payload))
        } else {
            Ok(None)
        }
    }
}

/// The big-endian `i64` at `at`.
fn read_i64(b: &Vec<u8>, at: usize) -> (v: i64)
    requires
        at + 8 <= b@.len(),
    ensures
        v == be64_value(b@.skip(at as int)) as i64,
{
    let mut r = crate::raknet::wire::Reader::new(b.as_slice());
    let _ = r.bytes(at);
    match r.i64() {
        Ok(v) => v,
        Err(_) => 0,
    }
}

impl Session {
    /// Queues datagrams for resending, as many as the outbox has room for.
    fn queue_resent(&mut self, resent: Vec<Vec<u8>>)
        requires
            old(self).well_formed(),
        ensures
            final(self).well_formed(),
            final(self).queued() == queue_within(old(self).queued(), outbox_view(resent@), old(self).settings().max_outbox),
            final(self).current_state() == old(self).current_state(),
            final(self).close_reason() == old(self).close_reason(),
            final(self).clock() == old(self).clock(),
            final(self).acks_due() == old(self).acks_due(),
            final(self).settings() == old(self).settings(),
            final(self).endpoints() == old(self).endpoints(),
            final(self).counters() == old(self).counters(),
            final(self).split_id() == old(self).split_id(),
            final(self).retransmission() == old(self).retransmission(),
    {
        let ghost q0 = self.queued();
        let ghost all = outbox_view(resent@);
        let mut resent = resent;
        let mut k: usize = 0;
        let total = resent.len();
        proof {
            assert(all.take(0) =~= Seq::<Seq<u8>>::empty());
            assert(q0 + all.take(0) =~= q0);
        }
        while resent.len() > 0
            invariant
                self.well_formed(),
                self.current_state() == old(self).current_state(),
                self.close_reason() == old(self).close_reason(),
                self.clock() == old(self).clock(),
                self.acks_due() == old(self).acks_due(),
                self.settings() == old(self).settings(),
                self.endpoints() == old(self).endpoints(),
                self.counters() == old(self).counters(),
                self.split_id() == old(self).split_id(),
                self.retransmission() == old(self).retransmission(),
                q0 == old(self).queued(),
                total == all.len(),
                k + resent@.len() == total,
                outbox_view(resent@) == all.skip(k as int),
                self.queued() == queue_within(q0, all.take(k as int), self.settings().max_outbox),
            decreases resent@.len(),
        {
            let ghost rest = resent@;
            let d = resent.remove(0);
            proof {
                assert(outbox_view(rest)[0] == d@);
                assert(all.skip(k as int)[0] == all[k as int]);
                assert(all.take(k + 1) =~= all.take(k as int).push(all[k as int]));
                assert(outbox_view(resent@) =~= outbox_view(rest).drop_first());
                assert(all.skip(k + 1) =~= all.skip(k as int).drop_first());
            }
            if self.outbox.len() < self.config.max_outbox {
                let ghost before = self.outbox@;
                self.outbox.push_back(d);
                proof {
                    assert(outbox_view(self.outbox@) =~= outbox_view(before).push(all[k as int]));
                    assert(queue_within(q0, all.take(k + 1), self.config.max_outbox) =~= queue_within(
                        q0,
                        all.take(k as int),
                        self.config.max_outbox,
                    ).push(all[k as int]));
                }
            } else {
                proof {
                    assert(queue_within(q0, all.take(k + 1), self.config.max_outbox) =~= queue_within(
                        q0,
                        all.take(k as int),
                        self.config.max_outbox,
                    ));
                }
            }
            k = k + 1;
        }
        proof {
            assert(all.take(k as int) =~= all);
        }
    }

    /// Feeds one datagram in and returns the payloads it completed.
    ///
    /// Only payloads whose first byte is at or above [`USER_PACKET_START`] come out; the
    /// rest are RakNet's, and are answered here. A frame set is acknowledged even when
    /// it is a duplicate: the peer is retransmitting because it never heard the first
    /// acknowledgement.
    pub fn receive(&mut self, bytes: &[u8], now: u64) -> (res: Result<Vec<Vec<u8>>, SessionError>)
        requires
            old(self).well_formed(),
        ensures
            final(self).well_formed(),
            received(*old(self), *final(self), bytes@, now, res),
    {
        if self.state == State::Closed {
            return Err(SessionError::Closed);
        }
        self.last_heard = now;
        let set = match Datagram::decode(bytes) {
            Err(e) => return Err(SessionError::Datagram(e)),
            Ok(Datagram::Ack(ack)) => {
                self.retransmitter.on_ack(&ack, now);
                return Ok(Vec::new());
            },
            Ok(Datagram::Nack(nack)) => {
                let resent = self.retransmitter.on_nack(&nack, now);
                proof {
                    assert(outbox_view(resent@) =~= resent@.map_values(|d: Vec<u8>| d@));
                }
                self.queue_resent(resent);
                return Ok(Vec::new());
            },
            Ok(Datagram::FrameSet(set)) => set,
        };
        self.pending_acks.push(set.sequence);
        let ghost acks = self.pending_acks@;
        let ghost q0 = old(self).queued();
        let ghost fs = frames_view(set.frames@);
        let ghost p0 = old(self).pipeline();
        let ghost mut c: int = 0;
        let ghost mut rel: Seq<Seq<u8>> = Seq::empty();
        let mut delivered: Vec<Vec<u8>> = Vec::new();
        let mut frames = set.frames;
        proof {
            assert(fs.take(0) =~= Seq::<FrameView>::empty());
            assert(frames_view(frames@) =~= fs.subrange(0, fs.len() as int));
            assert(delivered@.map_values(|q: Vec<u8>| q@) =~= Seq::<Seq<u8>>::empty());
        }
        while frames.len() > 0
            invariant
                self.well_formed(),
                self.clock() == (old(self).clock().0, now, old(self).clock().2),
                self.settings() == old(self).settings(),
                self.endpoints() == old(self).endpoints(),
                q0 == old(self).queued(),
                q0.is_prefix_of(self.queued()),
                rank(old(self).current_state()) <= rank(self.current_state()),
                old(self).current_state() != State::Closed,
                self.close_reason() is Some ==> self.close_reason() == Some(Closed::ByPeer),
                self.acks_due() == acks,
                match datagram_read(bytes@) {
                    Ok(DatagramView::FrameSet(sq, f2)) => acks == old(self).acks_due().push(sq) && f2 == fs,
                    _ => false,
                },
                all_user_payloads(delivered@),
                0 <= c <= fs.len(),
                frames_view(frames@) == fs.subrange(c, fs.len() as int),
                p0 == old(self).pipeline(),
                frames_fold(p0, fs.take(c), now).1 == Ok::<Seq<Seq<u8>>, SessionError>(rel),
                self.pipeline() == frames_fold(p0, fs.take(c), now).0,
                delivered@.map_values(|q: Vec<u8>| q@) == user_only(rel),
            decreases frames@.len(),
        {
            let ghost rest = frames_view(frames@);
            let ghost fvs = frames@;
            let frame = frames.remove(0);
            proof {
                assert(rest[0] == frame@);
                assert(rest.len() == fs.len() - c);
                assert(c < fs.len());
                assert(rest[0] == fs.subrange(c, fs.len() as int)[0]);
                assert(fs[c] == frame@);
                assert(fs.take(c + 1).drop_last() =~= fs.take(c));
                assert(fs.take(c + 1).last() == fs[c]);
                c = c + 1;
                assert(frames@ =~= fvs.subrange(1, fvs.len() as int));
                assert(frames_view(frames@) =~= rest.subrange(1, rest.len() as int));
                assert(frames_view(frames@) =~= fs.subrange(c, fs.len() as int));
            }
            let ghost fv = frame@;
            if frame.reliability.is_reliable() && !self.dedup.accept(frame.reliable_index) {
                proof {
                    assert(rel + Seq::<Seq<u8>>::empty() =~= rel);
                }
                continue;
            }
            let ordered = frame.reliability.is_ordered();
            let order_index = frame.order_index;
            let payload = match self.reassembler.push(frame, now) {
                Ok(Some(p)) => p,
                Ok(None) => {
                    proof {
                        assert(rel + Seq::<Seq<u8>>::empty() =~= rel);
                    }
                    continue;
                },
                Err(e) => {
                    proof {
                        assert(frames_fold(p0, fs.take(c), now).1 is Err);
                        lemma_fold_err(p0, fs, c, now);
                    }
                    return Err(SessionError::Split(e));
                },
            };
            let ghost ord0 = self.ordering@;
            let mut payloads: Vec<Vec<u8>> = if ordered {
                match self.ordering.push(order_index, payload) {
                    Ok(v) => {
                        proof {
                            if order_index >= ord0.0 && order_index - ord0.0 < ord0.2 {
                                let m = ord0.1.insert(order_index, payload);
                                assert(views_of(m) =~= views_of(ord0.1).insert(order_index, payload@));
                                lemma_drain_views(m, ord0.0);
                            } else {
                                assert(v@.map_values(|q: Vec<u8>| q@) =~= Seq::<Seq<u8>>::empty());
                            }
                        }
                        v
                    },
                    Err(e) => {
                        proof {
                            lemma_fold_err(p0, fs, c, now);
                        }
                        return Err(SessionError::Order(e));
                    },
                }
            } else {
                let one = vec![payload];
                proof {
                    assert(one@.map_values(|q: Vec<u8>| q@) =~= seq![payload@]);
                }
                one
            };
            let ghost out = payloads@.map_values(|q: Vec<u8>| q@);
            let ghost rel0 = rel;
            proof {
                assert(frames_fold(p0, fs.take(c), now).1 == Ok::<Seq<Seq<u8>>, SessionError>(rel0 + out));
                assert(self.pipeline() == frames_fold(p0, fs.take(c), now).0);
                assert(out.take(0) =~= Seq::<Seq<u8>>::empty());
                assert(rel0 + out.take(0) =~= rel0);
                assert(payloads@.map_values(|q: Vec<u8>| q@) =~= out.subrange(0, out.len() as int));
            }
            let ghost mut m: int = 0;
            while payloads.len() > 0
                invariant
                    self.well_formed(),
                    self.clock() == (old(self).clock().0, now, old(self).clock().2),
                    self.settings() == old(self).settings(),
                    self.endpoints() == old(self).endpoints(),
                    q0 == old(self).queued(),
                    q0.is_prefix_of(self.queued()),
                    rank(old(self).current_state()) <= rank(self.current_state()),
                    old(self).current_state() != State::Closed,
                    self.close_reason() is Some ==> self.close_reason() == Some(Closed::ByPeer),
                    self.acks_due() == acks,
                    match datagram_read(bytes@) {
                        Ok(DatagramView::FrameSet(sq, f2)) => acks == old(self).acks_due().push(sq) && f2 == fs,
                        _ => false,
                    },
                    all_user_payloads(delivered@),
                    0 <= c <= fs.len(),
                    frames_view(frames@) == fs.subrange(c, fs.len() as int),
                p0 == old(self).pipeline(),
                    0 <= m <= out.len(),
                    payloads@.map_values(|q: Vec<u8>| q@) == out.subrange(m, out.len() as int),
                    delivered@.map_values(|q: Vec<u8>| q@) == user_only(rel0 + out.take(m)),
                    self.pipeline() == frames_fold(p0, fs.take(c), now).0,
                    frames_fold(p0, fs.take(c), now).1 == Ok::<Seq<Seq<u8>>, SessionError>(rel0 + out),
                decreases payloads@.len(),
            {
                let ghost prest = payloads@;
                let p = payloads.remove(0);
                proof {
                    assert(prest.map_values(|q: Vec<u8>| q@)[0] == p@);
                    assert(prest.map_values(|q: Vec<u8>| q@).len() == out.len() - m);
                    assert(m < out.len());
                    assert(out.subrange(m, out.len() as int)[0] == out[m]);
                    assert(p@ == out[m]);
                    assert(payloads@ =~= prest.subrange(1, prest.len() as int));
                    assert(payloads@.map_values(|q: Vec<u8>| q@) =~= prest.map_values(|q: Vec<u8>| q@).subrange(
                        1,
                        prest.len() as int,
                    ));
                    assert(payloads@.map_values(|q: Vec<u8>| q@) =~= out.subrange(m + 1, out.len() as int));
                    assert(rel0 + out.take(m + 1) =~= (rel0 + out.take(m)).push(out[m]));
                    assert((rel0 + out.take(m)).push(out[m]).drop_last() =~= rel0 + out.take(m));
                    assert((rel0 + out.take(m)).push(out[m]).last() == out[m]);
                }
                let ghost mid = self.queued();
                let ghost dv = delivered@;
                match self.handle_internal(p, now) {
                    Ok(Some(q)) => {
                        delivered.push(q);
                        proof {
                            assert(delivered@ == dv.push(q));
                            assert(delivered@.map_values(|x: Vec<u8>| x@) =~= dv.map_values(|x: Vec<u8>| x@).push(q@));
                            assert forall|i: int| 0 <= i < delivered@.len() implies (#[trigger] delivered@[i])@.len() > 0
                                && delivered@[i]@[0] >= USER_PACKET_START by {
                                if i < dv.len() {
                                    assert(delivered@[i] == dv[i]);
                                }
                            }
                        }
                    },
                    Ok(None) => {
                        proof {
                            assert(!user_payload(out[m]));
                        }
                    },
                    Err(e) => {
                        proof {
                            assert(q0.is_prefix_of(self.queued()));
                            assert(answer_may_fail(out[m]));
                            let whole = frames_fold(p0, fs, now).1;
                            if whole is Ok {
                                lemma_fold_prefix(p0, fs, c, now);
                                let all = whole->Ok_0;
                                assert((rel0 + out)[rel0.len() + m] == out[m]);
                                assert(all[rel0.len() + m] == out[m]);
                            }
                        }
                        return Err(e);
                    },
                }
                proof {
                    assert(q0.is_prefix_of(self.queued()));
                    m = m + 1;
                }
            }
            proof {
                assert(out.take(m) =~= out);
                rel = rel0 + out;
            }
        }
        proof {
            assert(fs.take(c) =~= fs);
        }
        Ok(delivered)
    }
}

/// The distinct numbers of `xs`, in increasing order.
fn sorted_unique(xs: &Vec<u32>) -> (out: Vec<u32>)
    ensures
        increasing(out@),
        forall|x: u32| out@.contains(x) <==> xs@.contains(x),
{
    let mut out: Vec<u32> = Vec::new();
    let mut i: usize = 0;
    while i < xs.len()
        invariant
            i <= xs@.len(),
            increasing(out@),
            forall|x: u32| out@.contains(x) <==> xs@.take(i as int).contains(x),
        decreases xs@.len() - i,
    {
        let x = xs[i];
        let mut p: usize = 0;
        while p < out.len() && out[p] < x
            invariant
                p <= out@.len(),
                forall|j: int| 0 <= j < p ==> out@[j] < x,
            decreases out@.len() - p,
        {
            p = p + 1;
        }
        proof {
            assert(xs@.take(i + 1) =~= xs@.take(i as int).push(x));
        }
        if p < out.len() && out[p] == x {
            proof {
                assert forall|y: u32| out@.contains(y) <==> xs@.take(i + 1).contains(y) by {
                    if xs@.take(i + 1).contains(y) {
                        let k = choose|k: int| 0 <= k < xs@.take(i + 1).len() && #[trigger] xs@.take(i + 1)[k] == y;
                        if k < i {
                            assert(xs@.take(i as int)[k] == y);
                        } else {
                            assert(out@[p as int] == y);
                        }
                    }
                    if out@.contains(y) {
                        assert(xs@.take(i as int).contains(y));
                        let k = choose|k: int| 0 <= k < xs@.take(i as int).len() && #[trigger] xs@.take(i as int)[k] == y;
                        assert(xs@.take(i + 1)[k] == y);
                    }
                }
            }
        } else {
            let ghost before = out@;
            out.insert(p, x);
            proof {
                assert(out@ == before.insert(p as int, x));
                assert forall|a: int, b: int| 0 <= a < b < out@.len() implies out@[a] < out@[b] by {
                    if b < p {
                    } else if b == p {
                        assert(out@[a] == before[a]);
                    } else if a < p {
                        assert(out@[b] == before[b - 1]);
                        assert(before[b - 1] >= x);
                    } else if a == p {
                        assert(out@[b] == before[b - 1]);
                        assert(before[p as int] > x);
                        if b - 1 > p {
                            assert(before[p as int] < before[b - 1]);
                        }
                    } else {
                        assert(out@[a] == before[a - 1]);
                        assert(out@[b] == before[b - 1]);
                    }
                }
                assert forall|y: u32| out@.contains(y) <==> xs@.take(i + 1).contains(y) by {
                    if xs@.take(i + 1).contains(y) {
                        let k = choose|k: int| 0 <= k < xs@.take(i + 1).len() && #[trigger] xs@.take(i + 1)[k] == y;
                        if k < i {
                            assert(xs@.take(i as int)[k] == y);
                            assert(before.contains(y));
                            let m = choose|m: int| 0 <= m < before.len() && #[trigger] before[m] == y;
                            if m < p {
                                assert(out@[m] == y);
                            } else {
                                assert(out@[m + 1] == y);
                            }
                        } else {
                            assert(out@[p as int] == y);
                        }
                    }
                    if out@.contains(y) {
                        let m = choose|m: int| 0 <= m < out@.len() && #[trigger] out@[m] == y;
                        if m == p {
                            assert(xs@.take(i + 1)[i as int] == y);
                        } else {
                            let mm = if m < p {
                                m
                            } else {
                                m - 1
                            };
                            assert(before[mm] == y);
                            assert(before.contains(y));
                            let k = choose|k: int| 0 <= k < xs@.take(i as int).len() && #[trigger] xs@.take(i as int)[k] == y;
                            assert(xs@.take(i + 1)[k] == y);
                        }
                    }
                }
            }
        }
        i = i + 1;
    }
    proof {
        assert(xs@.take(i as int) =~= xs@);
    }
    out
}

/// The maximal runs of an increasing sequence, as inclusive ranges.
fn runs(sorted: &Vec<u32>) -> (ranges: Vec<(u32, u32)>)
    requires
        increasing(sorted@),
    ensures
        runs_of(ranges@, sorted@),
{
    let mut ranges: Vec<(u32, u32)> = Vec::new();
    let mut k: usize = 0;
    while k < sorted.len()
        invariant
            k <= sorted@.len(),
            increasing(sorted@),
            runs_of(ranges@, sorted@.take(k as int)),
            k > 0 ==> ranges@.len() > 0 && ranges@.last().1 == sorted@[k - 1],
            k == 0 ==> ranges@.len() == 0,
        decreases sorted@.len() - k,
    {
        let x = sorted[k];
        let ghost before = ranges@;
        proof {
            assert(sorted@.take(k + 1) =~= sorted@.take(k as int).push(x));
        }
        let n = ranges.len();
        if n > 0 && ranges[n - 1].1 < u32::MAX && x == ranges[n - 1].1 + 1 {
            let first = ranges[n - 1].0;
            ranges.set(n - 1, (first, x));
            proof {
                assert forall|y: u32| covered(ranges@, y) <==> sorted@.take(k + 1).contains(y) by {
                    if covered(ranges@, y) {
                        let i = choose|i: int| 0 <= i < ranges@.len() && (#[trigger] ranges@[i]).0 <= y <= ranges@[i].1;
                        if i < n - 1 || y < x {
                            assert(before[i].0 <= y <= before[i].1);
                            assert(covered(before, y));
                            assert(sorted@.take(k as int).contains(y));
                            let m = choose|m: int| 0 <= m < sorted@.take(k as int).len() && #[trigger] sorted@.take(k as int)[m] == y;
                            assert(sorted@.take(k + 1)[m] == y);
                        } else {
                            assert(sorted@.take(k + 1)[k as int] == y);
                        }
                    }
                    if sorted@.take(k + 1).contains(y) {
                        let m = choose|m: int| 0 <= m < sorted@.take(k + 1).len() && #[trigger] sorted@.take(k + 1)[m] == y;
                        if m < k {
                            assert(sorted@.take(k as int)[m] == y);
                            assert(covered(before, y));
                            let i = choose|i: int| 0 <= i < before.len() && (#[trigger] before[i]).0 <= y <= before[i].1;
                            assert(ranges@[i].0 <= y <= ranges@[i].1);
                        } else {
                            assert(ranges@[n - 1].0 <= y <= ranges@[n - 1].1);
                        }
                    }
                }
                assert forall|i: int| 0 <= i < ranges@.len() - 1 implies (#[trigger] ranges@[i]).1 + 1 < ranges@[i + 1].0 by {
                    assert(ranges@[i] == before[i]);
                    if i + 1 < n - 1 {
                        assert(ranges@[i + 1] == before[i + 1]);
                    }
                }
            }
        } else {
            ranges.push((x, x));
            proof {
                if k > 0 {
                    assert(sorted@[k - 1] < x);
                }
                assert forall|y: u32| covered(ranges@, y) <==> sorted@.take(k + 1).contains(y) by {
                    if covered(ranges@, y) {
                        let i = choose|i: int| 0 <= i < ranges@.len() && (#[trigger] ranges@[i]).0 <= y <= ranges@[i].1;
                        if i < n {
                            assert(before[i].0 <= y <= before[i].1);
                            assert(covered(before, y));
                            assert(sorted@.take(k as int).contains(y));
                            let m = choose|m: int| 0 <= m < sorted@.take(k as int).len() && #[trigger] sorted@.take(k as int)[m] == y;
                            assert(sorted@.take(k + 1)[m] == y);
                        } else {
                            assert(sorted@.take(k + 1)[k as int] == y);
                        }
                    }
                    if sorted@.take(k + 1).contains(y) {
                        let m = choose|m: int| 0 <= m < sorted@.take(k + 1).len() && #[trigger] sorted@.take(k + 1)[m] == y;
                        if m < k {
                            assert(sorted@.take(k as int)[m] == y);
                            assert(covered(before, y));
                            let i = choose|i: int| 0 <= i < before.len() && (#[trigger] before[i]).0 <= y <= before[i].1;
                            assert(ranges@[i].0 <= y <= ranges@[i].1);
                        } else {
                            assert(ranges@[n as int].0 <= y <= ranges@[n as int].1);
                        }
                    }
                }
                assert forall|i: int| 0 <= i < ranges@.len() - 1 implies (#[trigger] ranges@[i]).1 + 1 < ranges@[i + 1].0 by {
                    assert(ranges@[i] == before[i]);
                    if i + 1 < n {
                        assert(ranges@[i + 1] == before[i + 1]);
                    }
                }
            }
        }
        k = k + 1;
    }
    proof {
        assert(sorted@.take(k as int) =~= sorted@);
    }
    ranges
}

impl Session {
    /// Acknowledges everything received since the last acknowledgement, as the
    /// maximal runs of the sequence numbers, in one datagram if the outbox has room.
    fn flush_acks(&mut self)
        requires
            old(self).well_formed(),
        ensures
            final(self).well_formed(),
            old(self).acks_due().len() == 0 ==> *final(self) == *old(self),
            old(self).acks_due().len() > 0 ==> {
                &&& final(self).acks_due() == Seq::<u32>::empty()
                &&& final(self).current_state() == old(self).current_state()
                &&& final(self).close_reason() == old(self).close_reason()
                &&& final(self).clock() == old(self).clock()
                &&& final(self).settings() == old(self).settings()
                &&& final(self).endpoints() == old(self).endpoints()
                &&& final(self).counters() == old(self).counters()
                &&& final(self).split_id() == old(self).split_id()
                &&& final(self).retransmission() == old(self).retransmission()
                &&& exists|ranges: Seq<(u32, u32)>|
                    {
                        &&& #[trigger] runs_of(ranges, old(self).acks_due())
                        &&& final(self).queued() == if old(self).queued().len() < old(self).settings().max_outbox {
                            old(self).queued().push(datagram_bytes(DatagramView::Ack(ranges)))
                        } else {
                            old(self).queued()
                        }
                    }
            },
    {
        if self.pending_acks.len() == 0 {
            return;
        }
        let mut sequences: Vec<u32> = Vec::new();
        std::mem::swap(&mut sequences, &mut self.pending_acks);
        let sorted = sorted_unique(&sequences);
        let ranges = runs(&sorted);
        proof {
            assert forall|x: u32| covered(ranges@, x) <==> sequences@.contains(x) by {
                assert(covered(ranges@, x) <==> sorted@.contains(x));
            }
            assert(runs_of(ranges@, sequences@));
        }
        let ghost rv = ranges@;
        let mut w = Writer::new();
        let d = Datagram::Ack(Acknowledgement { ranges });
        d.encode(&mut w);
        let bytes = w.finish();
        if self.outbox.len() < self.config.max_outbox {
            let ghost before = self.outbox@;
            self.outbox.push_back(bytes);
            proof {
                assert(outbox_view(self.outbox@) =~= outbox_view(before).push(datagram_bytes(DatagramView::Ack(rv))));
            }
        }
    }

    /// Retransmits, acknowledges and checks the peer is still there.
    ///
    /// A peer silent for the timeout is closed as timed out; one that has stopped
    /// acknowledging what is retransmitted to it is closed as unreachable.
    #[verifier::rlimit(40)]
    pub fn tick(&mut self, now: u64)
        requires
            old(self).well_formed(),
        ensures
            final(self).well_formed(),
            final(self).close_reason() == tick_close(*old(self), now),
            old(self).current_state() == State::Closed ==> *final(self) == *old(self),
            old(self).current_state() != State::Closed ==> {
                let silent = elapsed(now, old(self).clock().1) >= old(self).settings().timeout;
                let dead = old(self).retransmission().3;
                &&& final(self).settings() == old(self).settings()
                &&& final(self).endpoints() == old(self).endpoints()
                &&& old(self).queued().is_prefix_of(final(self).queued())
                &&& silent ==> final(self).current_state() == State::Closed && final(self).close_reason() == Some(
                    Closed::Timeout,
                ) && final(self).queued() == old(self).queued()
                &&& !silent && dead ==> final(self).current_state() == State::Closed && final(self).close_reason()
                    == Some(Closed::Unreachable) && final(self).queued() == old(self).queued()
                &&& !silent && !dead ==> {
                    &&& final(self).current_state() == old(self).current_state()
                    &&& final(self).close_reason() == old(self).close_reason()
                    &&& final(self).acks_due() == Seq::<u32>::empty()
                    &&& final(self).clock() == (
                        old(self).clock().0,
                        old(self).clock().1,
                        if elapsed(now, old(self).clock().2) >= old(self).settings().keepalive {
                            now
                        } else {
                            old(self).clock().2
                        },
                    )
                    &&& old(self).acks_due().len() > 0 && old(self).queued().len() < old(self).settings().max_outbox
                        ==> exists|ranges: Seq<(u32, u32)>|
                        #[trigger] runs_of(ranges, old(self).acks_due()) && old(self).queued().push(
                            datagram_bytes(DatagramView::Ack(ranges)),
                        ).is_prefix_of(final(self).queued())
                }
            },
    {
        if self.state == State::Closed {
            return;
        }
        let silent = if now >= self.last_heard {
            now - self.last_heard >= self.config.timeout
        } else {
            0 >= self.config.timeout
        };
        if silent {
            self.state = State::Closed;
            self.closed = Some(Closed::Timeout);
            return;
        }
        if self.retransmitter.is_dead() {
            self.state = State::Closed;
            self.closed = Some(Closed::Unreachable);
            return;
        }
        let ghost q0 = self.queued();
        self.flush_acks();
        let ghost q1 = self.queued();
        proof {
            assert(q0.is_prefix_of(q1));
        }
        let resent = self.retransmitter.due(now);
        self.queue_resent(resent);
        proof {
            assert(q1.is_prefix_of(self.queued()));
        }
        self.reassembler.expire(now);
        let quiet = if now >= self.last_ping {
            now - self.last_ping >= self.config.keepalive
        } else {
            0 >= self.config.keepalive
        };
        if quiet {
            self.last_ping = now;
            let ms = self.now_millis(now);
            let ping = crate::raknet::online::encode_connected_ping(ms);
            let ghost q2 = self.queued();
            let _ = self.send(ping, now);
            proof {
                assert(q2.is_prefix_of(self.queued()));
                assert(q1.is_prefix_of(self.queued()));
            }
        }
    }

    /// Queues a disconnect and closes.
    pub fn close(&mut self, now: u64)
        requires
            old(self).well_formed(),
        ensures
            final(self).well_formed(),
            old(self).current_state() == State::Closed ==> *final(self) == *old(self),
            old(self).current_state() != State::Closed ==> final(self).current_state() == State::Closed
                && final(self).close_reason() == Some(Closed::ByUs) && old(self).queued().is_prefix_of(
                final(self).queued(),
            ) && final(self).settings() == old(self).settings(),
    {
        if self.state == State::Closed {
            return;
        }
        let _ = self.send(vec![ID_DISCONNECT], now);
        self.state = State::Closed;
        self.closed = Some(Closed::ByUs);
    }
}

} // verus!
