//! The server side: answers the offline phase and owns one [`Session`] per peer.
//!
//! Like [`Session`], it never touches a socket or a clock: datagrams and the time go
//! in; datagrams and [`Event`]s come out.
//!
//! Offline packets are answered before any peer has proved anything about itself. Only
//! the ping is rate limited, because only the ping amplifies: a 33-byte ping draws a
//! pong of a hundred or more, while `OpenConnectionRequest1` is padded to the MTU and
//! draws 28 bytes back. Rate limiting the open sequence instead breaks it — request 1
//! and request 2 arrive back to back from the same address.
//!
//! Capping the advertisement bounds how much a pong can amplify; the interval bounds
//! how often a forged source can ask.
//!
//! Times are nanoseconds on a monotonic clock the caller reads.
use crate::num::{be16, be16_value, be64, be64_value};
use crate::raknet::address::{address_bytes, address_read, read as read_address, write as write_address, Address, AddressView};
use crate::raknet::connect::{
    payload_limit, ID_INCOMPATIBLE_PROTOCOL_VERSION, ID_OPEN_CONNECTION_REPLY_1, ID_OPEN_CONNECTION_REPLY_2,
    ID_OPEN_CONNECTION_REQUEST_1, ID_OPEN_CONNECTION_REQUEST_2, PROTOCOL_VERSION,
};
use crate::raknet::offline::{pong_read, OfflineError, PongView, ID_UNCONNECTED_PING, ID_UNCONNECTED_PONG};
use crate::raknet::retransmit::elapsed;
use crate::raknet::session::{all_user_payloads, received, tick_close, Closed, Config, Session, SessionError, State};
use crate::raknet::wire::{Reader, Writer};
use crate::raknet::{magic, magic_bytes, MAX_MTU, UDP_IP_OVERHEAD};
use std::collections::VecDeque;
use vstd::prelude::*;
use vstd::string::StringSliceAdditionalSpecFns;

verus! {

/// Something that happened to a peer.
#[derive(Debug, Clone, PartialEq, Eq)]
pub enum Event {
    /// The peer completed the handshake.
    Connected(Address),
    /// The peer sent a payload.
    Payload(Address, Vec<u8>),
    /// The peer went away, and why.
    Disconnected(Address, Closed),
}

/// Which peer an event is about.
pub open spec fn event_peer(e: Event) -> AddressView {
    match e {
        Event::Connected(a) => a@,
        Event::Payload(a, _) => a@,
        Event::Disconnected(a, _) => a@,
    }
}

/// What the listener will spend before a peer has proved anything. Durations are
/// nanoseconds.
#[derive(Debug, Clone, Copy)]
pub struct ListenerConfig {
    /// Per-session settings.
    pub session: Config,
    /// Longest advertisement, in bytes, that is sent, bounding the amplification factor.
    pub max_advertisement: usize,
    /// Shortest gap between pong replies to one source host.
    pub ping_interval: u64,
    /// Source hosts remembered for rate limiting before stale ones are forgotten.
    pub max_tracked_sources: usize,
    /// Sessions accepted at once.
    pub max_sessions: usize,
}

impl Default for ListenerConfig {
    fn default() -> (c: Self)
        ensures
            c.max_advertisement == 256,
            c.ping_interval == 100_000_000,
            c.max_tracked_sources == 4096,
            c.max_sessions == 128,
            c.session.retransmit.min_rto <= c.session.retransmit.max_rto,
    {
        ListenerConfig {
            session: Config::default(),
            max_advertisement: 256,
            ping_interval: 100_000_000,
            max_tracked_sources: 4096,
            max_sessions: 128,
        }
    }
}

/// The host part of an address: its family and octets.
pub open spec fn host(a: AddressView) -> (bool, Seq<u8>) {
    (a.0, a.1)
}

/// Whether a rate-limit entry is still within the interval.
pub open spec fn recent(now: u64, interval: u64) -> spec_fn((AddressView, u64)) -> bool {
    |e: (AddressView, u64)| elapsed(now, e.1) < interval
}

/// The rate-limit table after forgetting stale hosts, which happens only once it has
/// grown to `cap` entries.
pub open spec fn pruned(t: Seq<(AddressView, u64)>, now: u64, interval: u64, cap: usize) -> Seq<(AddressView, u64)> {
    if t.len() >= cap {
        t.filter(recent(now, interval))
    } else {
        t
    }
}

/// Where a host sits in the rate-limit table, if it is there.
pub open spec fn find_host(t: Seq<(AddressView, u64)>, h: (bool, Seq<u8>)) -> Option<int>
    decreases t.len(),
{
    if t.len() == 0 {
        None
    } else if host(t.last().0) == h {
        Some(t.len() - 1)
    } else {
        find_host(t.drop_last(), h)
    }
}

/// What `find_host` finds: the last entry for the host, or none when no entry is for it.
pub proof fn lemma_find_host(t: Seq<(AddressView, u64)>, h: (bool, Seq<u8>))
    ensures
        match find_host(t, h) {
            Some(i) => 0 <= i < t.len() && host(t[i].0) == h && forall|k: int|
                i < k < t.len() ==> host(#[trigger] t[k].0) != h,
            None => forall|k: int| 0 <= k < t.len() ==> host(#[trigger] t[k].0) != h,
        },
    decreases t.len(),
{
    if t.len() > 0 && host(t.last().0) != h {
        lemma_find_host(t.drop_last(), h);
        assert forall|k: int| 0 <= k < t.len() - 1 implies t[k] == t.drop_last()[k] by {}
    }
}

/// Whether a host may have a pong now: it has not had one within the interval.
pub open spec fn ping_allowed(t: Seq<(AddressView, u64)>, from: AddressView, now: u64, interval: u64) -> bool {
    match find_host(t, host(from)) {
        Some(i) => elapsed(now, t[i].1) >= interval,
        None => true,
    }
}

/// The table after a pong to `from` at `now`: its entry stamped, or a new one.
pub open spec fn stamped(t: Seq<(AddressView, u64)>, from: AddressView, now: u64) -> Seq<(AddressView, u64)> {
    match find_host(t, host(from)) {
        Some(i) => t.update(i, (from, now)),
        None => t.push((from, now)),
    }
}

/// Pongs are rate limited per host: once a host has had a pong at `now`, a ping from
/// that host, from any port, before the interval has passed is refused, whether or not
/// the table is pruned in between.
pub proof fn lemma_rate_limited(
    t: Seq<(AddressView, u64)>,
    from: AddressView,
    now: u64,
    again: AddressView,
    later: u64,
    interval: u64,
    cap: usize,
)
    requires
        host(again) == host(from),
        elapsed(later, now) < interval,
    ensures
        !ping_allowed(pruned(stamped(t, from, now), later, interval, cap), again, later, interval),
{
    let h = host(from);
    let t1 = stamped(t, from, now);
    lemma_find_host(t, h);
    let at: int = match find_host(t, h) {
        Some(i) => i,
        None => t.len() as int,
    };
    assert(t1[at] == (from, now));
    assert forall|k: int| at < k < t1.len() implies host(#[trigger] t1[k].0) != h by {
        assert(t1[k] == t[k]);
    }
    lemma_find_host(t1, h);
    let t2 = pruned(t1, later, interval, cap);
    if t1.len() >= cap {
        let keep = recent(later, interval);
        t1.filter_lemma(keep);
        assert(keep(t1[at]));
        assert(t2.contains(t1[at]));
        let j = choose|j: int| 0 <= j < t2.len() && t2[j] == t1[at];
        lemma_find_host(t2, h);
        assert(host(t2[j].0) == h);
        let f = find_host(t2, h)->Some_0;
        assert(t2.contains(t2[f]));
        assert(keep(t2[f]));
    } else {
        assert(host(t1[at].0) == h);
        match find_host(t1, h) {
            Some(i) => {
                if i < at {
                    assert(host(t1[at].0) != h);
                } else if i > at {
                    assert(host(t1[i].0) != h);
                }
            },
            None => {
                assert(host(t1[at].0) != h);
            },
        }
    }
}

/// The length field of a pong: the advertisement's length, stopping at the top of `u16`.
pub open spec fn length_field(n: nat) -> u16 {
    if n <= 65535 {
        n as u16
    } else {
        65535
    }
}

/// `UnconnectedPong` answering a ping sent at `time`.
pub open spec fn pong_reply(time: i64, guid: i64, adv: Seq<u8>) -> Seq<u8> {
    seq![ID_UNCONNECTED_PONG] + be64(time as u64) + be64(guid as u64) + magic() + be16(length_field(adv.len()))
        + adv
}

/// A pong decodes to the time it echoes, the server's GUID and the advertisement, for
/// any advertisement of well-formed UTF-8 that its length field can count.
pub proof fn lemma_pong_decodes(time: i64, guid: i64, adv: Seq<u8>)
    requires
        adv.len() <= 65535,
        vstd::utf8::valid_utf8(adv),
    ensures
        pong_read(pong_reply(time, guid, adv)) == Ok::<PongView, OfflineError>(
            (time, guid, vstd::utf8::decode_utf8(adv)),
        ),
{
    let s = pong_reply(time, guid, adv);
    let (t, g) = (time as u64, guid as u64);
    crate::num::lemma_fixed_width_round_trip(adv.len() as u16, 0, t);
    crate::num::lemma_fixed_width_round_trip(0, 0, g);
    assert(s.len() == 35 + adv.len());
    assert forall|k: int| 0 <= k < 8 implies s.skip(1)[k] == be64(t)[k] by {}
    assert forall|k: int| 0 <= k < 8 implies s.skip(9)[k] == be64(g)[k] by {}
    assert forall|k: int| 0 <= k < 2 implies s.skip(33)[k] == be16(adv.len() as u16)[k] by {}
    assert(be64_value(s.skip(1)) == be64_value(be64(t)));
    assert(be64_value(s.skip(9)) == be64_value(be64(g)));
    assert(be16_value(s.skip(33)) == be16_value(be16(adv.len() as u16)));
    assert(s.subrange(17, 33) =~= magic());
    assert(s.subrange(35, 35 + adv.len() as int) =~= adv);
    assert((time as u64) as i64 == time) by (bit_vector);
    assert((guid as u64) as i64 == guid) by (bit_vector);
}

/// `IncompatibleProtocolVersion`, naming the version this side speaks.
pub open spec fn incompatible_reply(guid: i64) -> Seq<u8> {
    seq![ID_INCOMPATIBLE_PROTOCOL_VERSION, PROTOCOL_VERSION] + magic() + be64(guid as u64)
}

/// The MTU a request 1 of `len` bytes is answered with: the datagram that arrived plus
/// the IP and UDP headers, at most the largest MTU plus those headers.
pub open spec fn reply_mtu(len: nat) -> u16 {
    let m = len + UDP_IP_OVERHEAD;
    if m < MAX_MTU + UDP_IP_OVERHEAD {
        m as u16
    } else {
        (MAX_MTU + UDP_IP_OVERHEAD) as u16
    }
}

/// `OpenConnectionReply1`, with no security and the MTU agreed.
pub open spec fn reply_1_bytes(guid: i64, mtu: u16) -> Seq<u8> {
    seq![ID_OPEN_CONNECTION_REPLY_1] + magic() + be64(guid as u64) + seq![0u8] + be16(mtu)
}

/// `OpenConnectionReply2`, telling the peer its address as seen from here.
pub open spec fn reply_2_bytes(guid: i64, from: AddressView, mtu: u16) -> Seq<u8> {
    seq![ID_OPEN_CONNECTION_REPLY_2] + magic() + be64(guid as u64) + address_bytes(from) + be16(mtu) + seq![0u8]
}

/// How an offline packet from `from` is answered: the reply, if any, and the MTU of a
/// session it opens, if it opens one. `ping_ok` is the rate limit's verdict and `room`
/// whether another session may open.
pub open spec fn offline_answer(
    bytes: Seq<u8>,
    guid: i64,
    adv: Seq<u8>,
    from: AddressView,
    ping_ok: bool,
    room: bool,
) -> (Option<Seq<u8>>, Option<u16>) {
    if bytes.len() == 0 {
        (None, None)
    } else if bytes[0] == ID_UNCONNECTED_PING {
        if ping_ok && bytes.len() >= 9 {
            (Some(pong_reply(be64_value(bytes.skip(1)) as i64, guid, adv)), None)
        } else {
            (None, None)
        }
    } else if bytes[0] == ID_OPEN_CONNECTION_REQUEST_1 {
        if bytes.len() < 18 {
            (None, None)
        } else if bytes[17] != PROTOCOL_VERSION {
            (Some(incompatible_reply(guid)), None)
        } else {
            (Some(reply_1_bytes(guid, reply_mtu(bytes.len()))), None)
        }
    } else if bytes[0] == ID_OPEN_CONNECTION_REQUEST_2 {
        if !room || bytes.len() < 17 || address_read(bytes.skip(17), true).0 is Err || bytes.len() < 26 {
            (None, None)
        } else {
            let mtu = be16_value(bytes.skip(24));
            (Some(reply_2_bytes(guid, from, mtu)), Some(mtu))
        }
    } else {
        (None, None)
    }
}

/// The payload limit a session opened at `mtu` gets: what the headers leave, and never
/// less than the minimum MTU every path carries.
pub open spec fn session_payload_limit(mtu: u16) -> usize {
    let p: int = if mtu >= UDP_IP_OVERHEAD {
        mtu - UDP_IP_OVERHEAD
    } else {
        0
    };
    if p > 576 {
        p as usize
    } else {
        576
    }
}

/// The keys of the session table.
pub open spec fn keys_of(s: Seq<(Address, Session)>) -> Seq<AddressView> {
    s.map_values(|e: (Address, Session)| e.0@)
}

/// The queued datagrams, each with where it goes.
pub open spec fn outgoing_view(q: Seq<(Address, Vec<u8>)>) -> Seq<(AddressView, Seq<u8>)> {
    q.map_values(|e: (Address, Vec<u8>)| (e.0@, e.1@))
}

/// Where a peer's session sits in the table, if it has one.
pub open spec fn find_peer(keys: Seq<AddressView>, a: AddressView) -> Option<int> {
    if exists|i: int| 0 <= i < keys.len() && keys[i] == a {
        Some(choose|i: int| 0 <= i < keys.len() && keys[i] == a)
    } else {
        None
    }
}

/// Datagrams, each tagged with where it goes.
pub open spec fn tagged(to: AddressView, ds: Seq<Seq<u8>>) -> Seq<(AddressView, Seq<u8>)> {
    ds.map_values(|d: Seq<u8>| (to, d))
}

/// A RakNet server.
#[derive(Debug)]
pub struct Listener {
    local: Address,
    guid: i64,
    advertisement: Vec<u8>,
    config: ListenerConfig,
    sessions: Vec<(Address, Session)>,
    outbox: VecDeque<(Address, Vec<u8>)>,
    last_ping: Vec<(Address, u64)>,
}

/// Where an advertisement of `bytes` is cut to fit `max` bytes: nowhere when it fits,
/// otherwise at the start of the character the cap falls in.
pub open spec fn cut_point(bytes: Seq<u8>, max: nat) -> nat
    decreases max,
{
    if bytes.len() <= max {
        bytes.len()
    } else if max == 0 || bytes[max as int] & 0xc0 != 0x80 {
        max
    } else {
        cut_point(bytes, (max - 1) as nat)
    }
}

/// The cut never passes the cap, and never falls inside a character: the byte after
/// it, if any, starts one.
pub proof fn lemma_cut_point(bytes: Seq<u8>, max: nat)
    ensures
        cut_point(bytes, max) <= max,
        cut_point(bytes, max) <= bytes.len(),
        bytes.len() <= max ==> cut_point(bytes, max) == bytes.len(),
        cut_point(bytes, max) < bytes.len() && cut_point(bytes, max) > 0 ==> bytes[cut_point(bytes, max) as int]
            & 0xc0 != 0x80,
    decreases max,
{
    if bytes.len() > max && max != 0 && bytes[max as int] & 0xc0 == 0x80 {
        lemma_cut_point(bytes, (max - 1) as nat);
    }
}

impl Listener {
    /// Whether the listener's parts agree: one session per peer, no more sessions than
    /// allowed, every session well formed, and sessions opened with a sound
    /// retransmission floor.
    pub closed spec fn well_formed(&self) -> bool {
        &&& forall|i: int, j: int| 0 <= i < j < self.sessions@.len() ==> self.sessions@[i].0@ != self.sessions@[j].0@
        &&& self.sessions@.len() <= self.config.max_sessions
        &&& forall|i: int| 0 <= i < self.sessions@.len() ==> (#[trigger] self.sessions@[i]).1.well_formed()
            && self.sessions@[i].1.settings().retransmit.max_in_flight
            == self.config.session.retransmit.max_in_flight
        &&& self.config.session.retransmit.min_rto <= self.config.session.retransmit.max_rto
    }

    /// The peers with a session, in the order they opened.
    pub closed spec fn peers(&self) -> Seq<AddressView> {
        keys_of(self.sessions@)
    }

    /// The session of the peer at `i`.
    pub closed spec fn session_at(&self, i: int) -> Session {
        self.sessions@[i].1
    }

    /// Datagrams queued for the socket, oldest first, each with where it goes.
    pub closed spec fn outgoing(&self) -> Seq<(AddressView, Seq<u8>)> {
        outgoing_view(self.outbox@)
    }

    /// The settings the listener was made with.
    pub closed spec fn settings(&self) -> ListenerConfig {
        self.config
    }

    /// The advertisement as it is sent.
    pub closed spec fn advertised(&self) -> Seq<u8> {
        self.advertisement@
    }

    /// Our own address and GUID.
    pub closed spec fn identity(&self) -> (AddressView, i64) {
        (self.local@, self.guid)
    }

    /// When each host last had a pong.
    pub closed spec fn ping_table(&self) -> Seq<(AddressView, u64)> {
        self.last_ping@.map_values(|e: (Address, u64)| (e.0@, e.1))
    }

    /// A listener advertising `advertisement`, cut to the configured number of bytes.
    /// The cut has to fall between characters.
    pub fn new(local: Address, guid: i64, advertisement: &str, config: ListenerConfig) -> (l: Self)
        requires
            config.session.retransmit.min_rto <= config.session.retransmit.max_rto,
        ensures
            l.well_formed(),
            l.peers() == Seq::<AddressView>::empty(),
            l.outgoing() == Seq::<(AddressView, Seq<u8>)>::empty(),
            l.settings() == config,
            l.identity() == (local@, guid),
            l.ping_table() == Seq::<(AddressView, u64)>::empty(),
            l.advertised() == advertisement.spec_bytes().take(
                cut_point(advertisement.spec_bytes(), config.max_advertisement as nat) as int,
            ),
    {
        let bytes = advertisement.as_bytes();
        let mut keep = if bytes.len() <= config.max_advertisement {
            bytes.len()
        } else {
            config.max_advertisement
        };
        if keep < bytes.len() {
            // Cut back to the start of the character the cap falls in.
            while keep > 0 && bytes[keep] & 0xc0 == 0x80
                invariant
                    keep < bytes@.len(),
                    keep <= config.max_advertisement,
                    cut_point(bytes@, config.max_advertisement as nat) == cut_point(bytes@, keep as nat),
                decreases keep,
            {
                keep = keep - 1;
            }
        }
        let mut adv: Vec<u8> = Vec::new();
        let mut i: usize = 0;
        while i < keep
            invariant
                keep <= bytes@.len(),
                i <= keep,
                adv@ == bytes@.take(i as int),
            decreases keep - i,
        {
            adv.push(bytes[i]);
            proof {
                assert(bytes@.take(i + 1) =~= bytes@.take(i as int).push(bytes@[i as int]));
            }
            i = i + 1;
        }
        proof {
            assert(keep == cut_point(bytes@, config.max_advertisement as nat));
            if bytes@.len() <= config.max_advertisement {
                assert(bytes@.take(keep as int) =~= bytes@);
            }
        }
        let l = Listener {
            local,
            guid,
            advertisement: adv,
            config,
            sessions: Vec::new(),
            outbox: VecDeque::new(),
            last_ping: Vec::new(),
        };
        proof {
            assert(keys_of(l.sessions@) =~= Seq::<AddressView>::empty());
            assert(outgoing_view(l.outbox@) =~= Seq::<(AddressView, Seq<u8>)>::empty());
            assert(l.last_ping@.map_values(|e: (Address, u64)| (e.0@, e.1)) =~= Seq::<(AddressView, u64)>::empty());
        }
        l
    }

    /// Connected and connecting peers; never more than the configured cap.
    pub fn sessions(&self) -> (n: usize)
        requires
            self.well_formed(),
        ensures
            n == self.peers().len(),
            n <= self.settings().max_sessions,
    {
        self.sessions.len()
    }

    /// The next datagram to put on the socket, and where it goes.
    pub fn poll_transmit(&mut self) -> (d: Option<(Address, Vec<u8>)>)
        requires
            old(self).well_formed(),
        ensures
            final(self).well_formed(),
            old(self).outgoing().len() == 0 ==> d is None && final(self).outgoing() == old(self).outgoing(),
            old(self).outgoing().len() > 0 ==> (d matches Some(x) && (x.0@, x.1@) == old(self).outgoing()[0]
                && final(self).outgoing() == old(self).outgoing().drop_first()),
            final(self).peers() == old(self).peers(),
            final(self).settings() == old(self).settings(),
    {
        let d = self.outbox.pop_front();
        proof {
            assert(outgoing_view(self.outbox@) =~= if old(self).outbox@.len() == 0 {
                outgoing_view(old(self).outbox@)
            } else {
                outgoing_view(old(self).outbox@).drop_first()
            });
        }
        d
    }
}

/// Moves everything a session has queued onto the listener's outbox, tagged with the
/// peer it goes to.
fn drain(outbox: &mut VecDeque<(Address, Vec<u8>)>, peer: Address, session: &mut Session)
    requires
        old(session).well_formed(),
    ensures
        final(session).well_formed(),
        outgoing_view(final(outbox)@) == outgoing_view(old(outbox)@) + tagged(peer@, old(session).queued()),
        final(session).queued().len() == 0,
        final(session).current_state() == old(session).current_state(),
        final(session).close_reason() == old(session).close_reason(),
        final(session).clock() == old(session).clock(),
        final(session).acks_due() == old(session).acks_due(),
        final(session).counters() == old(session).counters(),
        final(session).settings() == old(session).settings(),
        final(session).endpoints() == old(session).endpoints(),
{
    let ghost q0 = session.queued();
    let ghost o0 = outgoing_view(outbox@);
    let ghost mut k: int = 0;
    proof {
        assert(q0.skip(0) =~= q0);
        assert(o0 + tagged(peer@, q0.take(0)) =~= o0);
    }
    loop
        invariant
            session.well_formed(),
            0 <= k <= q0.len(),
            session.queued() == q0.skip(k as int),
            outgoing_view(outbox@) == o0 + tagged(peer@, q0.take(k as int)),
            session.current_state() == old(session).current_state(),
            session.close_reason() == old(session).close_reason(),
            session.clock() == old(session).clock(),
            session.acks_due() == old(session).acks_due(),
            session.counters() == old(session).counters(),
            session.settings() == old(session).settings(),
            session.endpoints() == old(session).endpoints(),
            q0 == old(session).queued(),
            o0 == outgoing_view(old(outbox)@),
        ensures
            session.well_formed(),
            session.queued().len() == 0,
            outgoing_view(outbox@) == o0 + tagged(peer@, q0),
            session.current_state() == old(session).current_state(),
            session.close_reason() == old(session).close_reason(),
            session.clock() == old(session).clock(),
            session.acks_due() == old(session).acks_due(),
            session.counters() == old(session).counters(),
            session.settings() == old(session).settings(),
            session.endpoints() == old(session).endpoints(),
        decreases q0.len() - k,
    {
        let ghost pending = session.queued();
        match session.poll_transmit() {
            Some(d) => {
                let ghost before = outbox@;
                outbox.push_back((peer, d));
                proof {
                    assert(q0.skip(k as int)[0] == q0[k as int]);
                    assert(q0.take(k + 1) =~= q0.take(k as int).push(q0[k as int]));
                    assert(q0.skip(k + 1) =~= q0.skip(k as int).drop_first());
                    assert(outgoing_view(outbox@) =~= outgoing_view(before).push((peer@, d@)));
                    assert(tagged(peer@, q0.take(k + 1)) =~= tagged(peer@, q0.take(k as int)).push((peer@, q0[k as int])));
                }
                proof {
                    k = k + 1;
                }
            },
            None => {
                proof {
                    assert(q0.take(k as int) =~= q0);
                }
                break;
            },
        }
    }
}

impl Listener {
    /// Where a peer's session sits, if it has one.
    fn position(&self, peer: &Address) -> (r: Option<usize>)
        ensures
            r matches Some(i) ==> i < self.peers().len() && self.peers()[i as int] == peer@,
            r is None ==> !self.peers().contains(peer@),
    {
        let mut i: usize = 0;
        while i < self.sessions.len()
            invariant
                i <= self.sessions@.len(),
                forall|j: int| 0 <= j < i ==> keys_of(self.sessions@)[j] != peer@,
            decreases self.sessions@.len() - i,
        {
            if self.sessions[i].0.same(peer) {
                return Some(i);
            }
            i = i + 1;
        }
        None
    }

    /// Queues a payload for a connected peer.
    pub fn send(&mut self, peer: Address, payload: Vec<u8>, now: u64) -> (res: Result<(), SessionError>)
        requires
            old(self).well_formed(),
        ensures
            final(self).well_formed(),
            final(self).peers() == old(self).peers(),
            final(self).settings() == old(self).settings(),
            old(self).outgoing().is_prefix_of(final(self).outgoing()),
            !old(self).peers().contains(peer@) ==> res == Err::<(), SessionError>(SessionError::Closed)
                && final(self).outgoing() == old(self).outgoing(),
            res is Ok ==> exists|i: int, s: Session|
                0 <= i < old(self).peers().len() && old(self).peers()[i] == peer@ && #[trigger] crate::raknet::session::sent_payload(
                    old(self).session_at(i),
                    s,
                    payload@,
                ) && final(self).outgoing() == old(self).outgoing() + tagged(peer@, s.queued()),
            res is Err ==> final(self).outgoing() == old(self).outgoing(),
            old(self).peers().contains(peer@) && crate::raknet::session::send_fits(
                old(self).session_at(old(self).peers().index_of(peer@)),
                payload@,
            ) ==> res is Ok,
    {
        let i = match self.position(&peer) {
            Some(i) => i,
            None => return Err(SessionError::Closed),
        };
        proof {
            assert(old(self).peers().index_of(peer@) == i as int) by {
                let keys = old(self).peers();
                assert(keys[i as int] == peer@);
                assert forall|j: int| 0 <= j < keys.len() && keys[j] == peer@ implies j == i by {
                    if j != i {
                        assert(keys[j] == old(self).sessions@[j].0@);
                        assert(keys[i as int] == old(self).sessions@[i as int].0@);
                    }
                }
            }
        }
        let ghost keys = keys_of(self.sessions@);
        let ghost o0 = self.outgoing();
        let (addr, mut session) = self.sessions.remove(i);
        let ghost s0 = session;
        match session.send(payload, now) {
            Ok(()) => {},
            Err(e) => {
                self.sessions.insert(i, (addr, session));
                proof {
                    assert(keys_of(self.sessions@) =~= keys);
                    assert(o0.is_prefix_of(self.outgoing()));
                }
                return Err(e);
            },
        }
        let ghost s1 = session;
        drain(&mut self.outbox, peer, &mut session);
        self.sessions.insert(i, (addr, session));
        proof {
            assert(keys_of(self.sessions@) =~= keys);
            assert(o0.is_prefix_of(self.outgoing()));
            assert(s0 == old(self).session_at(i as int));
            assert(crate::raknet::session::sent_payload(old(self).session_at(i as int), s1, payload@));
        }
        Ok(())
    }

    /// Whether this source may have a pong right now, noting that it had one if so.
    fn allow_ping(&mut self, from: Address, now: u64) -> (ok: bool)
        requires
            old(self).well_formed(),
        ensures
            final(self).well_formed(),
            ({
                let t = pruned(
                    old(self).ping_table(),
                    now,
                    old(self).settings().ping_interval,
                    old(self).settings().max_tracked_sources,
                );
                &&& ok == ping_allowed(t, from@, now, old(self).settings().ping_interval)
                &&& final(self).ping_table() == if ok {
                    stamped(t, from@, now)
                } else {
                    t
                }
            }),
            final(self).peers() == old(self).peers(),
            final(self).outgoing() == old(self).outgoing(),
            final(self).settings() == old(self).settings(),
            final(self).advertised() == old(self).advertised(),
            final(self).identity() == old(self).identity(),
            forall|i: int| 0 <= i < old(self).peers().len() ==> final(self).session_at(i) == old(self).session_at(i),
    {
        let interval = self.config.ping_interval;
        let ghost t0 = self.ping_table();
        if self.last_ping.len() >= self.config.max_tracked_sources {
            let mut kept: Vec<(Address, u64)> = Vec::new();
            let mut j: usize = 0;
            let ghost keep = recent(now, interval);
            proof {
                assert(t0.take(0).filter(keep) =~= Seq::<(AddressView, u64)>::empty());
                reveal(Seq::filter);
            }
            while j < self.last_ping.len()
                invariant
                    j <= self.last_ping@.len(),
                    t0 == self.last_ping@.map_values(|e: (Address, u64)| (e.0@, e.1)),
                    keep == recent(now, interval),
                    self.well_formed(),
                    self.sessions@ == old(self).sessions@,
                    self.outbox@ == old(self).outbox@,
                    self.config == old(self).config,
                    self.advertisement@ == old(self).advertisement@,
                    self.local == old(self).local,
                    self.guid == old(self).guid,
                    interval == self.config.ping_interval,
                    kept@.map_values(|e: (Address, u64)| (e.0@, e.1)) == t0.take(j as int).filter(keep),
                decreases self.last_ping@.len() - j,
            {
                let e = self.last_ping[j];
                proof {
                    assert(t0.take(j + 1) =~= t0.take(j as int).push(t0[j as int]));
                    t0.take(j as int).lemma_filter_push(t0[j as int], keep);
                    reveal(Seq::filter);
                }
                let fresh = if now >= e.1 {
                    now - e.1 < interval
                } else {
                    0 < interval
                };
                if fresh {
                    let ghost before = kept@;
                    kept.push(e);
                    proof {
                        assert(kept@.map_values(|e: (Address, u64)| (e.0@, e.1)) =~= before.map_values(
                            |e: (Address, u64)| (e.0@, e.1),
                        ).push(t0[j as int]));
                    }
                }
                j = j + 1;
            }
            proof {
                assert(t0.take(j as int) =~= t0);
            }
            self.last_ping = kept;
        }
        let ghost t = self.ping_table();
        proof {
            assert(t == pruned(t0, now, interval, self.config.max_tracked_sources));
        }
        let mut k: usize = self.last_ping.len();
        proof {
            assert(t.take(k as int) =~= t);
        }
        while k > 0
            invariant
                k <= self.last_ping@.len(),
                t == self.ping_table(),
                t == pruned(t0, now, interval, self.config.max_tracked_sources),
                t0 == old(self).ping_table(),
                self.well_formed(),
                self.sessions@ == old(self).sessions@,
                self.outbox@ == old(self).outbox@,
                self.config == old(self).config,
                self.advertisement@ == old(self).advertisement@,
                self.local == old(self).local,
                self.guid == old(self).guid,
                interval == self.config.ping_interval,
                find_host(t, host(from@)) == find_host(t.take(k as int), host(from@)),
            decreases k,
        {
            let e = self.last_ping[k - 1];
            proof {
                assert(t.take(k as int).last() == t[k - 1]);
                assert(t.take(k as int).drop_last() =~= t.take(k - 1));
            }
            if e.0.same_host(&from) {
                proof {
                    assert(host(t[k - 1].0) == host(from@));
                    assert(find_host(t.take(k as int), host(from@)) == Some(k - 1));
                }
                let seen = e.1;
                let fresh = if now >= seen {
                    now - seen < interval
                } else {
                    0 < interval
                };
                if fresh {
                    return false;
                }
                self.last_ping.set(k - 1, (from, now));
                proof {
                    assert(self.ping_table() =~= t.update(k - 1, (from@, now)));
                }
                return true;
            }
            k = k - 1;
        }
        proof {
            assert(t.take(0) =~= Seq::<(AddressView, u64)>::empty());
        }
        self.last_ping.push((from, now));
        proof {
            assert(self.ping_table() =~= t.push((from@, now)));
        }
        true
    }
}

impl Listener {
    /// Queues a reply for a peer with no session.
    fn reply(&mut self, to: Address, bytes: Vec<u8>)
        requires
            old(self).well_formed(),
        ensures
            final(self).well_formed(),
            final(self).outgoing() == old(self).outgoing().push((to@, bytes@)),
            final(self).sessions@ == old(self).sessions@,
            final(self).last_ping@ == old(self).last_ping@,
            final(self).config == old(self).config,
            final(self).advertisement@ == old(self).advertisement@,
            final(self).local == old(self).local,
            final(self).guid == old(self).guid,
    {
        let ghost before = self.outbox@;
        self.outbox.push_back((to, bytes));
        proof {
            assert(outgoing_view(self.outbox@) =~= outgoing_view(before).push((to@, bytes@)));
        }
    }

    /// Answers the offline phase: pings, and the two requests that open a session.
    fn offline(&mut self, from: Address, bytes: &[u8], now: u64)
        requires
            old(self).well_formed(),
            !old(self).peers().contains(from@),
        ensures
            final(self).well_formed(),
            final(self).settings() == old(self).settings(),
            final(self).advertised() == old(self).advertised(),
            final(self).identity() == old(self).identity(),
            ({
                let interval = old(self).settings().ping_interval;
                let t = pruned(old(self).ping_table(), now, interval, old(self).settings().max_tracked_sources);
                let is_ping = bytes@.len() > 0 && bytes@[0] == ID_UNCONNECTED_PING;
                let ok = ping_allowed(t, from@, now, interval);
                let room = old(self).peers().len() < old(self).settings().max_sessions;
                let (reply, opened) = offline_answer(
                    bytes@,
                    old(self).identity().1,
                    old(self).advertised(),
                    from@,
                    ok,
                    room,
                );
                &&& final(self).ping_table() == if is_ping {
                    if ok {
                        stamped(t, from@, now)
                    } else {
                        t
                    }
                } else {
                    old(self).ping_table()
                }
                &&& final(self).outgoing() == match reply {
                    Some(r) => old(self).outgoing().push((from@, r)),
                    None => old(self).outgoing(),
                }
                &&& final(self).peers() == match opened {
                    Some(_) => old(self).peers().push(from@),
                    None => old(self).peers(),
                }
                &&& forall|i: int| 0 <= i < old(self).peers().len() ==> final(self).session_at(i) == old(self).session_at(i)
                &&& opened matches Some(mtu) ==> {
                    let s = final(self).session_at(old(self).peers().len() as int);
                    &&& s.current_state() == State::Connecting
                    &&& s.endpoints() == (from@, old(self).identity().0)
                    &&& s.settings().payload_limit == session_payload_limit(mtu)
                    &&& s.clock() == (now, now, now)
                }
            }),
    {
        if bytes.len() == 0 {
            return;
        }
        let ghost s = bytes@;
        let id = bytes[0];
        if id == ID_UNCONNECTED_PING {
            if !self.allow_ping(from, now) {
                return;
            }
            let mut r = Reader::new(bytes);
            let _ = r.u8();
            let time = match r.i64() {
                Ok(t) => t,
                Err(_) => return,
            };
            let n = self.advertisement.len();
            let len: u16 = if n <= 65535 {
                n as u16
            } else {
                65535
            };
            let m = magic_bytes();
            let mut w = Writer::new();
            w.u8(ID_UNCONNECTED_PONG).i64(time).i64(self.guid).bytes(m.as_slice()).u16(len).bytes(
                self.advertisement.as_slice(),
            );
            let pong = w.finish();
            proof {
                assert(pong@ =~= pong_reply(time, self.guid, self.advertisement@));
            }
            self.reply(from, pong);
        } else if id == ID_OPEN_CONNECTION_REQUEST_1 {
            if bytes.len() < 18 {
                return;
            }
            let version = bytes[17];
            if version != PROTOCOL_VERSION {
                let m = magic_bytes();
                let mut w = Writer::new();
                w.u8(ID_INCOMPATIBLE_PROTOCOL_VERSION).u8(PROTOCOL_VERSION).bytes(m.as_slice()).i64(self.guid);
                let out = w.finish();
                proof {
                    assert(out@ =~= incompatible_reply(self.guid));
                }
                self.reply(from, out);
                return;
            }
            let mtu: u16 = if bytes.len() < MAX_MTU {
                (bytes.len() + UDP_IP_OVERHEAD) as u16
            } else {
                (MAX_MTU + UDP_IP_OVERHEAD) as u16
            };
            let m = magic_bytes();
            let mut w = Writer::new();
            w.u8(ID_OPEN_CONNECTION_REPLY_1).bytes(m.as_slice()).i64(self.guid).u8(0).u16(mtu);
            let out = w.finish();
            proof {
                assert(out@ =~= reply_1_bytes(self.guid, reply_mtu(bytes@.len())));
            }
            self.reply(from, out);
        } else if id == ID_OPEN_CONNECTION_REQUEST_2 {
            if self.sessions.len() >= self.config.max_sessions {
                return;
            }
            if bytes.len() < 17 {
                return;
            }
            let mut r = Reader::new(bytes);
            let _ = r.bytes(17);
            proof {
                assert(r@ == s.skip(17));
            }
            match read_address(&mut r) {
                Ok(_) => {},
                Err(_) => return,
            }
            proof {
                assert(r@ == s.skip(17).skip(7));
                assert(s.skip(17).skip(7) =~= s.skip(24));
            }
            let mtu = match r.u16() {
                Ok(v) => v,
                Err(_) => return,
            };
            let m = magic_bytes();
            let mut w = Writer::new();
            w.u8(ID_OPEN_CONNECTION_REPLY_2).bytes(m.as_slice()).i64(self.guid);
            write_address(&mut w, from);
            w.u16(mtu).u8(0);
            let out = w.finish();
            proof {
                assert(out@ =~= reply_2_bytes(self.guid, from@, mtu));
            }
            self.reply(from, out);
            let mut config = self.config.session;
            let limit = payload_limit(mtu);
            config.payload_limit = if limit > 576 {
                limit
            } else {
                576
            };
            let session = Session::new(from, self.local, config, now);
            let ghost before = self.sessions@;
            self.sessions.push((from, session));
            proof {
                assert(keys_of(self.sessions@) =~= keys_of(before).push(from@));
                assert forall|i: int, j: int| 0 <= i < j < self.sessions@.len() implies self.sessions@[i].0@
                    != self.sessions@[j].0@ by {
                    if j == before.len() {
                        assert(keys_of(before)[i] == before[i].0@);
                    }
                }
            }
        }
    }
}

/// Whether events are about one peer, carry only application payloads, report the
/// handshake only first and a departure only last.
pub open spec fn well_ordered_events(events: Seq<Event>, peer: AddressView) -> bool {
    &&& forall|i: int| 0 <= i < events.len() ==> event_peer(#[trigger] events[i]) == peer
    &&& forall|i: int| 0 <= i < events.len() ==> (#[trigger] events[i] matches Event::Payload(_, p) ==> p@.len() > 0
        && p@[0] >= crate::raknet::session::USER_PACKET_START)
    &&& forall|i: int| 0 < i < events.len() ==> !(#[trigger] events[i] is Connected)
    &&& forall|i: int| 0 <= i < events.len() - 1 ==> !(#[trigger] events[i] is Disconnected)
}

/// The events a session's answer to one datagram gives: each payload it delivered, in
/// order; the handshake first when the datagram completed it; the departure last when
/// the session is finished.
pub open spec fn session_events(
    from: Address,
    before: State,
    after: Session,
    res: Result<Vec<Vec<u8>>, SessionError>,
) -> Seq<Event> {
    let delivered = match res {
        Ok(v) => v@.map_values(|p: Vec<u8>| Event::Payload(from, p)),
        Err(_) => Seq::<Event>::empty(),
    };
    match after.close_reason() {
        Some(r) => delivered.push(Event::Disconnected(from, r)),
        None => if before != State::Connected && after.current_state() == State::Connected {
            seq![Event::Connected(from)] + delivered
        } else {
            delivered
        },
    }
}

/// A session reports its handshake once: the only handshake a datagram's events can
/// carry comes first, from a session that was not connected and now is. A session
/// stays connected once it is (its state only moves forward), so no later datagram
/// reports it again.
pub proof fn lemma_connected_once(
    from: Address,
    before: State,
    after: Session,
    res: Result<Vec<Vec<u8>>, SessionError>,
)
    ensures
        forall|i: int|
            0 <= i < session_events(from, before, after, res).len() && (#[trigger] session_events(
                from,
                before,
                after,
                res,
            )[i] is Connected) ==> i == 0 && before != State::Connected && after.current_state()
                == State::Connected,
{
    let delivered = match res {
        Ok(v) => v@.map_values(|p: Vec<u8>| Event::Payload(from, p)),
        Err(_) => Seq::<Event>::empty(),
    };
    assert forall|k: int| 0 <= k < delivered.len() implies (#[trigger] delivered[k]) is Payload by {}
    let evs = session_events(from, before, after, res);
    assert forall|i: int| 0 <= i < evs.len() && (#[trigger] evs[i] is Connected) implies i == 0 && before
        != State::Connected && after.current_state() == State::Connected by {
        match after.close_reason() {
            Some(r) => {
                if i < delivered.len() {
                    assert(evs[i] == delivered[i]);
                }
            },
            None => {
                if before != State::Connected && after.current_state() == State::Connected {
                    if i > 0 {
                        assert(evs[i] == delivered[i - 1]);
                    }
                } else {
                    assert(evs[i] == delivered[i]);
                }
            },
        }
    }
}

impl Listener {
    /// Feeds one datagram in.
    ///
    /// From a peer with a session, it goes to that session, and what the session
    /// delivered comes back as events, with the handshake reported on the transition
    /// only and the session dropped when it finishes. From anyone else it is an offline
    /// packet, answered or ignored, and yields no event.
    pub fn receive(&mut self, from: Address, bytes: &[u8], now: u64) -> (events: Vec<Event>)
        requires
            old(self).well_formed(),
        ensures
            final(self).well_formed(),
            final(self).settings() == old(self).settings(),
            final(self).identity() == old(self).identity(),
            old(self).outgoing().is_prefix_of(final(self).outgoing()),
            !old(self).peers().contains(from@) ==> events@.len() == 0 && final(self).peers().len() <= old(
                self,
            ).peers().len() + 1,
            old(self).peers().contains(from@) ==> {
                &&& well_ordered_events(events@, from@)
                &&& (final(self).peers() == old(self).peers() && !(events@.len() > 0 && events@.last() is Disconnected))
                    || (final(self).peers() == old(self).peers().remove(old(self).peers().index_of(from@))
                    && events@.len() > 0 && events@.last() is Disconnected)
            },
            old(self).peers().contains(from@) ==> exists|after: Session, res: Result<Vec<Vec<u8>>, SessionError>|
                #[trigger] received(old(self).session_at(old(self).peers().index_of(from@)), after, bytes@, now, res)
                    && events@ == session_events(
                    from,
                    old(self).session_at(old(self).peers().index_of(from@)).current_state(),
                    after,
                    res,
                ),
    {
        let i = match self.position(&from) {
            Some(i) => i,
            None => {
                let ghost o0 = self.outgoing();
                self.offline(from, bytes, now);
                proof {
                    assert(o0.is_prefix_of(self.outgoing()));
                }
                return Vec::new();
            },
        };
        proof {
            assert(old(self).peers().index_of(from@) == i as int) by {
                let keys = old(self).peers();
                assert(keys[i as int] == from@);
                assert forall|j: int| 0 <= j < keys.len() && keys[j] == from@ implies j == i by {
                    if j != i {
                        assert(keys[j] == old(self).sessions@[j].0@);
                        assert(keys[i as int] == old(self).sessions@[i as int].0@);
                    }
                }
            }
        }
        let ghost keys = keys_of(self.sessions@);
        let ghost o0 = self.outgoing();
        let (addr, mut session) = self.sessions.remove(i);
        proof {
            assert(keys_of(self.sessions@) =~= keys.remove(i as int));
        }
        let before = session.state();
        let res = session.receive(bytes, now);
        let ghost after = session;
        let ghost r = res;
        let payloads = match res {
            Ok(v) => v,
            Err(_) => Vec::new(),
        };
        let ghost p0 = payloads@;
        let ghost delivered = match r {
            Ok(v) => v@.map_values(|p: Vec<u8>| Event::Payload(from, p)),
            Err(_) => Seq::<Event>::empty(),
        };
        proof {
            assert(delivered == p0.map_values(|p: Vec<u8>| Event::Payload(from, p)));
        }
        let connected = before != State::Connected && session.state() == State::Connected;
        let closed = session.closed_because();
        drain(&mut self.outbox, from, &mut session);
        let mut events: Vec<Event> = Vec::new();
        let mut payloads = payloads;
        while payloads.len() > 0
            invariant
                all_user_payloads(payloads@),
                well_ordered_events(events@, from@),
                payloads@.len() <= p0.len(),
                payloads@ == p0.subrange(p0.len() - payloads@.len(), p0.len() as int),
                events@ == p0.subrange(0, p0.len() - payloads@.len()).map_values(|p: Vec<u8>| Event::Payload(from, p)),
                forall|j: int| 0 <= j < events@.len() ==> (#[trigger] events@[j]) is Payload,
            decreases payloads@.len(),
        {
            let ghost rest = payloads@;
            let p = payloads.remove(0);
            proof {
                assert(p == rest[0]);
                assert forall|j: int| 0 <= j < payloads@.len() implies (#[trigger] payloads@[j])@.len() > 0
                    && payloads@[j]@[0] >= crate::raknet::session::USER_PACKET_START by {
                    assert(payloads@[j] == rest[j + 1]);
                }
            }
            let ghost ev = events@;
            events.push(Event::Payload(from, p));
            proof {
                assert(payloads@ =~= p0.subrange(p0.len() - payloads@.len(), p0.len() as int));
                assert(p == p0[p0.len() - rest.len()]);
                assert(events@ =~= p0.subrange(0, p0.len() - payloads@.len()).map_values(
                    |q: Vec<u8>| Event::Payload(from, q),
                ));
                assert forall|j: int| 0 <= j < events@.len() implies event_peer(#[trigger] events@[j]) == from@ by {
                    if j < ev.len() {
                        assert(events@[j] == ev[j]);
                    }
                }
                assert forall|j: int| 0 <= j < events@.len() implies (#[trigger] events@[j]) is Payload by {
                    if j < ev.len() {
                        assert(events@[j] == ev[j]);
                    }
                }
                assert forall|j: int| 0 <= j < events@.len() implies (#[trigger] events@[j] matches Event::Payload(_, q)
                    ==> q@.len() > 0 && q@[0] >= crate::raknet::session::USER_PACKET_START) by {
                    if j < ev.len() {
                        assert(events@[j] == ev[j]);
                    }
                }
            }
        }
        match closed {
            Some(reason) => {
                let ghost ev = events@;
                events.push(Event::Disconnected(from, reason));
                proof {
                    assert forall|j: int| 0 <= j < events@.len() implies event_peer(#[trigger] events@[j]) == from@ by {
                        if j < ev.len() {
                            assert(events@[j] == ev[j]);
                        }
                    }
                    assert forall|j: int| 0 <= j < events@.len() implies (#[trigger] events@[j] matches Event::Payload(_, q)
                        ==> q@.len() > 0 && q@[0] >= crate::raknet::session::USER_PACKET_START) by {
                        if j < ev.len() {
                            assert(events@[j] == ev[j]);
                        }
                    }
                    assert forall|j: int| 0 < j < events@.len() implies !(#[trigger] events@[j] is Connected) by {
                        if j < ev.len() {
                            assert(events@[j] == ev[j]);
                        }
                    }
                    assert forall|j: int| 0 <= j < events@.len() - 1 implies !(#[trigger] events@[j] is Disconnected) by {
                        assert(events@[j] == ev[j]);
                    }
                    assert(o0.is_prefix_of(self.outgoing()));
                    assert forall|a: int, b: int| 0 <= a < b < self.sessions@.len() implies self.sessions@[a].0@
                        != self.sessions@[b].0@ by {
                        let ia = if a < i { a } else { a + 1 };
                        let ib = if b < i { b } else { b + 1 };
                        assert(self.sessions@[a] == old(self).sessions@[ia]);
                        assert(self.sessions@[b] == old(self).sessions@[ib]);
                    }
                }
            },
            None => {
                self.sessions.insert(i, (addr, session));
                proof {
                    assert(keys_of(self.sessions@) =~= keys);
                    assert(o0.is_prefix_of(self.outgoing()));
                    assert forall|a: int, b: int| 0 <= a < b < self.sessions@.len() implies self.sessions@[a].0@
                        != self.sessions@[b].0@ by {
                        assert(self.sessions@[a].0@ == keys[a]);
                        assert(self.sessions@[b].0@ == keys[b]);
                        assert(keys[a] == old(self).sessions@[a].0@);
                        assert(keys[b] == old(self).sessions@[b].0@);
                    }
                    assert forall|j: int| 0 <= j < self.sessions@.len() implies (#[trigger] self.sessions@[j]).1.well_formed()
                        && self.sessions@[j].1.settings().retransmit.max_in_flight
                        == self.config.session.retransmit.max_in_flight by {
                        if j != i {
                            assert(self.sessions@[j] == old(self).sessions@[j]);
                        }
                    }
                }
                if connected {
                    let ghost ev = events@;
                    events.insert(0, Event::Connected(from));
                    proof {
                        assert forall|j: int| 0 <= j < events@.len() implies event_peer(#[trigger] events@[j]) == from@ by {
                            if j > 0 {
                                assert(events@[j] == ev[j - 1]);
                            }
                        }
                        assert forall|j: int| 0 <= j < events@.len() implies (#[trigger] events@[j] matches Event::Payload(_, q)
                            ==> q@.len() > 0 && q@[0] >= crate::raknet::session::USER_PACKET_START) by {
                            if j > 0 {
                                assert(events@[j] == ev[j - 1]);
                            }
                        }
                        assert forall|j: int| 0 < j < events@.len() implies !(#[trigger] events@[j] is Connected) by {
                            assert(events@[j] == ev[j - 1]);
                        }
                        assert forall|j: int| 0 <= j < events@.len() - 1 implies !(#[trigger] events@[j] is Disconnected) by {
                            if j > 0 {
                                assert(events@[j] == ev[j - 1]);
                            }
                        }
                    }
                }
            },
        }
        proof {
            assert(p0.subrange(0, p0.len() as int) =~= p0);
            assert(received(old(self).session_at(i as int), after, bytes@, now, r));
            assert(events@ =~= session_events(from, before, after, r));
        }
        events
    }
}

/// The peers among the first `n` of `l` whose session is still open after a tick at
/// `now`, in order.
pub open spec fn kept_on_tick(l: Listener, now: u64, n: nat) -> Seq<AddressView>
    decreases n,
{
    if n == 0 {
        Seq::empty()
    } else {
        let prev = kept_on_tick(l, now, (n - 1) as nat);
        if tick_close(l.session_at(n - 1), now) is None {
            prev.push(l.peers()[n - 1])
        } else {
            prev
        }
    }
}

/// The peers among the first `n` of `l` whose session a tick at `now` leaves closed, in
/// order, each with why.
pub open spec fn closed_on_tick(l: Listener, now: u64, n: nat) -> Seq<(AddressView, Closed)>
    decreases n,
{
    if n == 0 {
        Seq::empty()
    } else {
        let prev = closed_on_tick(l, now, (n - 1) as nat);
        match tick_close(l.session_at(n - 1), now) {
            Some(r) => prev.push((l.peers()[n - 1], r)),
            None => prev,
        }
    }
}

impl Listener {
    /// Drives every session, and drops and reports the ones that ended.
    pub fn tick(&mut self, now: u64) -> (events: Vec<Event>)
        requires
            old(self).well_formed(),
        ensures
            final(self).well_formed(),
            final(self).settings() == old(self).settings(),
            final(self).identity() == old(self).identity(),
            old(self).outgoing().is_prefix_of(final(self).outgoing()),
            final(self).peers().len() + events@.len() == old(self).peers().len(),
            forall|p: AddressView| #[trigger] final(self).peers().contains(p) ==> old(self).peers().contains(p),
            forall|j: int| 0 <= j < events@.len() ==> (#[trigger] events@[j]) is Disconnected && old(
                self,
            ).peers().contains(event_peer(events@[j])),
            final(self).peers() == kept_on_tick(*old(self), now, old(self).peers().len()),
            ({
                let gone = closed_on_tick(*old(self), now, old(self).peers().len());
                &&& events@.len() == gone.len()
                &&& forall|j: int| 0 <= j < events@.len() ==> (#[trigger] events@[j] matches Event::Disconnected(a, r)
                    && (a@, r) == gone[j])
            }),
    {
        let ghost k0 = self.peers();
        let ghost o0 = self.outgoing();
        let mut events: Vec<Event> = Vec::new();
        let mut i: usize = 0;
        let ghost mut c: int = 0;
        while i < self.sessions.len()
            invariant
                self.well_formed(),
                self.config == old(self).config,
                self.local == old(self).local,
                self.guid == old(self).guid,
                k0 == old(self).peers(),
                o0 == old(self).outgoing(),
                o0.is_prefix_of(self.outgoing()),
                i <= self.sessions@.len(),
                self.sessions@.len() + events@.len() == k0.len(),
                forall|k: int| 0 <= k < self.sessions@.len() ==> k0.contains(#[trigger] keys_of(self.sessions@)[k]),
                forall|j: int| 0 <= j < events@.len() ==> (#[trigger] events@[j]) is Disconnected && k0.contains(
                    event_peer(events@[j]),
                ),
                c == i + events@.len(),
                forall|m: int| 0 <= m < self.sessions@.len() - i ==> self.sessions@[i + m] == #[trigger] old(
                    self,
                ).sessions@[c + m],
                keys_of(self.sessions@).take(i as int) == kept_on_tick(*old(self), now, c as nat),
                events@.len() == closed_on_tick(*old(self), now, c as nat).len(),
                forall|j: int| 0 <= j < events@.len() ==> (#[trigger] events@[j] matches Event::Disconnected(a, r)
                    && (a@, r) == closed_on_tick(*old(self), now, c as nat)[j]),
            decreases self.sessions@.len() - i,
        {
            let ghost keys = keys_of(self.sessions@);
            let ghost before = self.sessions@;
            let ghost ob = self.outgoing();
            let (addr, mut session) = self.sessions.remove(i);
            proof {
                assert(keys[i as int] == addr@);
                assert(k0.contains(addr@));
                assert(before[i + 0] == old(self).sessions@[c + 0]);
                assert(session == old(self).session_at(c as int));
                assert(addr@ == old(self).peers()[c as int]);
            }
            let ghost ev0 = events@;
            let ghost c0 = c;
            session.tick(now);
            drain(&mut self.outbox, addr, &mut session);
            proof {
                assert(ob.is_prefix_of(self.outgoing()));
                assert(o0.is_prefix_of(self.outgoing()));
            }
            match session.closed_because() {
                Some(reason) => {
                    let ghost ev = events@;
                    events.push(Event::Disconnected(addr, reason));
                    proof {
                        c = c + 1;
                        assert(closed_on_tick(*old(self), now, c as nat) == closed_on_tick(*old(self), now, c0 as nat).push(
                            (addr@, reason),
                        ));
                        assert(kept_on_tick(*old(self), now, c as nat) == kept_on_tick(*old(self), now, c0 as nat));
                        assert(keys_of(self.sessions@).take(i as int) =~= keys.take(i as int));
                        assert forall|m: int| 0 <= m < self.sessions@.len() - i implies self.sessions@[i + m]
                            == #[trigger] old(self).sessions@[c + m] by {
                            assert(self.sessions@[i + m] == before[i + m + 1]);
                            assert(before[i + (m + 1)] == old(self).sessions@[c0 + (m + 1)]);
                        }
                        assert forall|j: int| 0 <= j < events@.len() implies (#[trigger] events@[j] matches Event::Disconnected(a, r)
                            && (a@, r) == closed_on_tick(*old(self), now, c as nat)[j]) by {
                            if j < ev.len() {
                                assert(events@[j] == ev[j]);
                            }
                        }
                        assert forall|j: int| 0 <= j < events@.len() implies (#[trigger] events@[j]) is Disconnected
                            && k0.contains(event_peer(events@[j])) by {
                            if j < ev.len() {
                                assert(events@[j] == ev[j]);
                            }
                        }
                        assert forall|a: int, b: int| 0 <= a < b < self.sessions@.len() implies self.sessions@[a].0@
                            != self.sessions@[b].0@ by {
                            let ia = if a < i { a } else { a + 1 };
                            let ib = if b < i { b } else { b + 1 };
                            assert(self.sessions@[a] == before[ia]);
                            assert(self.sessions@[b] == before[ib]);
                        }
                        assert forall|k: int| 0 <= k < self.sessions@.len() implies k0.contains(
                            #[trigger] keys_of(self.sessions@)[k],
                        ) by {
                            let ik = if k < i { k } else { k + 1 };
                            assert(self.sessions@[k] == before[ik]);
                            assert(keys[ik] == before[ik].0@);
                        }
                    }
                },
                None => {
                    self.sessions.insert(i, (addr, session));
                    proof {
                        c = c + 1;
                        assert(kept_on_tick(*old(self), now, c as nat) == kept_on_tick(*old(self), now, c0 as nat).push(addr@));
                        assert(closed_on_tick(*old(self), now, c as nat) == closed_on_tick(*old(self), now, c0 as nat));
                        assert(keys_of(self.sessions@) =~= keys);
                        assert(keys_of(self.sessions@).take(i + 1) =~= keys.take(i as int).push(addr@));
                        assert forall|m: int| 0 <= m < self.sessions@.len() - (i + 1) implies self.sessions@[(i + 1) + m]
                            == #[trigger] old(self).sessions@[c + m] by {
                            assert(self.sessions@[(i + 1) + m] == before[i + (m + 1)]);
                            assert(before[i + (m + 1)] == old(self).sessions@[c0 + (m + 1)]);
                        }
                        assert forall|a: int, b: int| 0 <= a < b < self.sessions@.len() implies self.sessions@[a].0@
                            != self.sessions@[b].0@ by {
                            assert(self.sessions@[a].0@ == keys[a]);
                            assert(self.sessions@[b].0@ == keys[b]);
                            assert(keys[a] == before[a].0@);
                            assert(keys[b] == before[b].0@);
                        }
                        assert forall|j: int| 0 <= j < self.sessions@.len() implies (#[trigger] self.sessions@[j]).1.well_formed()
                            && self.sessions@[j].1.settings().retransmit.max_in_flight
                            == self.config.session.retransmit.max_in_flight by {
                            if j != i {
                                assert(self.sessions@[j] == before[j]);
                            }
                        }
                    }
                    i = i + 1;
                },
            }
        }
        proof {
            assert(keys_of(self.sessions@).take(i as int) =~= keys_of(self.sessions@));
            assert forall|p: AddressView| #[trigger] self.peers().contains(p) implies k0.contains(p) by {
                let k = choose|k: int| 0 <= k < self.peers().len() && self.peers()[k] == p;
                assert(k0.contains(keys_of(self.sessions@)[k]));
            }
        }
        events
    }
}

} // verus!
