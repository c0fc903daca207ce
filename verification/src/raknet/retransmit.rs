//! Keeping reliable datagrams until the peer acknowledges them.
//!
//! The retransmission timeout follows RFC 6298: a smoothed round trip estimate plus
//! four times its variation, doubled on each retry. Samples are only taken from
//! datagrams that were sent once: a retransmitted one cannot say which copy the ACK
//! answered (Karn's algorithm).
//!
//! Times are nanoseconds on a monotonic clock the caller reads; every method takes the
//! current time, so the whole thing runs without a clock.
use crate::raknet::datagram::Acknowledgement;
use vstd::prelude::*;

verus! {

/// An estimate as the contracts see it: the smoothed round trip once there is one, its
/// variation, and the bounds the timeout is clamped to.
pub type RttView = (Option<u64>, u64, u64, u64);

/// `a - b`, or zero when `b` is later.
pub open spec fn elapsed(a: u64, b: u64) -> u64 {
    if a >= b {
        (a - b) as u64
    } else {
        0
    }
}

/// The estimate after one more measurement.
pub open spec fn sample_spec(r: RttView, x: u64) -> RttView {
    match r.0 {
        None => (Some(x), x / 2, r.2, r.3),
        Some(s) => {
            let delta: int = if s >= x {
                s - x
            } else {
                x - s
            };
            (Some(((s * 7 + x) / 8) as u64), ((r.1 * 3 + delta) / 4) as u64, r.2, r.3)
        },
    }
}

/// The timeout an estimate gives: the ceiling before any sample, then the smoothed trip
/// plus four variations, clamped.
pub open spec fn timeout_spec(r: RttView) -> u64 {
    match r.0 {
        None => r.3,
        Some(s) => {
            let t = s + 4 * r.1;
            if t < r.2 {
                r.2
            } else if t > r.3 {
                r.3
            } else {
                t as u64
            }
        },
    }
}

/// Round trip estimate, in RFC 6298 terms.
#[derive(Debug, Clone)]
pub struct Rtt {
    smoothed: Option<u64>,
    variation: u64,
    min: u64,
    max: u64,
}

impl View for Rtt {
    type V = RttView;

    closed spec fn view(&self) -> RttView {
        (self.smoothed, self.variation, self.min, self.max)
    }
}

impl Rtt {
    /// An estimator clamped to `[min, max]`, starting at `max` until it has a sample.
    pub fn new(min: u64, max: u64) -> (r: Self)
        ensures
            r@ == (None::<u64>, 0u64, min, max),
    {
        Rtt { smoothed: None, variation: 0, min, max }
    }

    /// Folds in one measurement.
    pub fn sample(&mut self, rtt: u64)
        ensures
            final(self)@ == sample_spec(old(self)@, rtt),
    {
        match self.smoothed {
            None => {
                self.smoothed = Some(rtt);
                self.variation = rtt / 2;
            },
            Some(smoothed) => {
                let delta: u64 = if smoothed >= rtt {
                    smoothed - rtt
                } else {
                    rtt - smoothed
                };
                let v: u128 = (self.variation as u128 * 3 + delta as u128) / 4;
                let s: u128 = (smoothed as u128 * 7 + rtt as u128) / 8;
                assert(v <= u64::MAX) by (nonlinear_arith)
                    requires
                        v == (self.variation as u128 * 3 + delta as u128) / 4,
                        self.variation <= u64::MAX,
                        delta <= u64::MAX,
                ;
                assert(s <= u64::MAX) by (nonlinear_arith)
                    requires
                        s == (smoothed as u128 * 7 + rtt as u128) / 8,
                        smoothed <= u64::MAX,
                        rtt <= u64::MAX,
                ;
                self.variation = v as u64;
                self.smoothed = Some(s as u64);
            },
        }
    }

    /// Current timeout.
    pub fn timeout(&self) -> (t: u64)
        requires
            self@.0 is Some ==> self@.2 <= self@.3,
        ensures
            t == timeout_spec(self@),
    {
        match self.smoothed {
            None => self.max,
            Some(smoothed) => {
                let t: u128 = smoothed as u128 + self.variation as u128 * 4;
                if t < self.min as u128 {
                    self.min
                } else if t > self.max as u128 {
                    self.max
                } else {
                    t as u64
                }
            },
        }
    }

    /// A copy of this estimate.
    pub fn clone_estimate(&self) -> (r: Rtt)
        ensures
            r@ == self@,
    {
        Rtt { smoothed: self.smoothed, variation: self.variation, min: self.min, max: self.max }
    }

    /// The smoothed estimate, once there has been a sample.
    pub fn smoothed(&self) -> (s: Option<u64>)
        ensures
            s == self@.0,
    {
        self.smoothed
    }
}

/// What a session will spend holding unacknowledged datagrams.
#[derive(Debug, Clone, Copy)]
pub struct Limits {
    /// Floor for the timeout, so a fast link does not retransmit on jitter alone.
    pub min_rto: u64,
    /// Ceiling for the timeout, and the starting value before any sample.
    pub max_rto: u64,
    /// Retries before the peer is considered gone.
    pub max_retries: u32,
    /// Unacknowledged datagrams held at once.
    pub max_in_flight: usize,
}

impl Default for Limits {
    fn default() -> (l: Self)
        ensures
            l.min_rto == 100_000_000,
            l.max_rto == 2_000_000_000,
            l.max_retries == 8,
            l.max_in_flight == 512,
    {
        Limits { min_rto: 100_000_000, max_rto: 2_000_000_000, max_retries: 8, max_in_flight: 512 }
    }
}

/// The peer is holding more unacknowledged datagrams than the window allows.
#[derive(Debug, Clone, Copy, PartialEq, Eq, Structural)]
pub struct WindowFull;

/// One datagram awaiting acknowledgement.
#[derive(Debug)]
struct InFlight {
    sequence: u32,
    datagram: Vec<u8>,
    sent_at: u64,
    retries: u32,
}

/// A held datagram as the contracts see it: sequence number, bytes, when it was last
/// sent, and how many times it has been sent again.
pub type EntryView = (u32, Seq<u8>, u64, u32);

/// The views of held datagrams.
spec fn entries_view(es: Seq<InFlight>) -> Seq<EntryView> {
    es.map_values(|e: InFlight| (e.sequence, e.datagram@, e.sent_at, e.retries))
}

/// Whether held datagrams are in strictly increasing sequence order.
pub open spec fn sorted(es: Seq<EntryView>) -> bool {
    forall|i: int, j: int| 0 <= i < j < es.len() ==> (#[trigger] es[i]).0 < (#[trigger] es[j]).0
}

/// Where the first held datagram at or after sequence `key` sits.
pub open spec fn first_at_least(es: Seq<EntryView>, key: u32) -> nat
    decreases es.len(),
{
    if es.len() == 0 || es[0].0 >= key {
        0
    } else {
        1 + first_at_least(es.drop_first(), key)
    }
}

/// The held datagrams after tracking `e`: in sequence order, replacing one with the same
/// sequence number.
pub open spec fn placed(es: Seq<EntryView>, e: EntryView) -> Seq<EntryView> {
    let p = first_at_least(es, e.0);
    es.take(p as int) + seq![e] + es.skip(if p < es.len() && es[p as int].0 == e.0 {
        p as int + 1
    } else {
        p as int
    })
}

/// Tracking a datagram holds at most one more than before.
pub proof fn lemma_placed_len(es: Seq<EntryView>, e: EntryView)
    ensures
        placed(es, e).len() <= es.len() + 1,
{
    lemma_first_at_least(es, e.0);
}

/// What comes before the first datagram at or after `key` is below it, and that one is
/// not.
proof fn lemma_first_at_least(es: Seq<EntryView>, key: u32)
    ensures
        first_at_least(es, key) <= es.len(),
        forall|i: int| 0 <= i < first_at_least(es, key) ==> (#[trigger] es[i]).0 < key,
        first_at_least(es, key) < es.len() ==> es[first_at_least(es, key) as int].0 >= key,
    decreases es.len(),
{
    if es.len() > 0 && es[0].0 < key {
        lemma_first_at_least(es.drop_first(), key);
        assert forall|i: int| 0 <= i < first_at_least(es, key) implies (#[trigger] es[i]).0 < key by {
            if i > 0 {
                assert(es[i] == es.drop_first()[i - 1]);
            }
        }
    }
}

/// Tracking keeps the held datagrams in sequence order.
proof fn lemma_placed_sorted(es: Seq<EntryView>, e: EntryView)
    requires
        sorted(es),
    ensures
        sorted(placed(es, e)),
{
    lemma_first_at_least(es, e.0);
    let p = first_at_least(es, e.0) as int;
    let q = if p < es.len() && es[p].0 == e.0 {
        p + 1
    } else {
        p
    };
    let r = placed(es, e);
    assert forall|i: int, j: int| 0 <= i < j < r.len() implies (#[trigger] r[i]).0 < (#[trigger] r[j]).0 by {
        if j < p {
            assert(r[i] == es[i] && r[j] == es[j]);
        } else if j == p {
            assert(r[i] == es[i]);
        } else {
            assert(r[j] == es[q + (j - p - 1)]);
            if i < p {
                assert(r[i] == es[i]);
                if q + (j - p - 1) > p {
                    assert(es[p].0 < es[q + (j - p - 1)].0);
                }
            } else if i == p {
                if q + (j - p - 1) > p {
                    assert(es[p].0 < es[q + (j - p - 1)].0);
                }
            } else {
                assert(r[i] == es[q + (i - p - 1)]);
            }
        }
    }
}

/// What one acknowledged range does: drops the datagrams in it, in order, sampling the
/// trip of each that was sent once.
pub open spec fn ack_range(es: Seq<EntryView>, rtt: RttView, start: u32, end: u32, now: u64) -> (
    Seq<EntryView>,
    RttView,
)
    decreases es.len(),
{
    if es.len() == 0 {
        (es, rtt)
    } else {
        let e = es[0];
        let hit = start <= e.0 <= end;
        let rtt2 = if hit && e.3 == 0 {
            sample_spec(rtt, elapsed(now, e.2))
        } else {
            rtt
        };
        let rest = ack_range(es.drop_first(), rtt2, start, end, now);
        (if hit {
            rest.0
        } else {
            seq![e] + rest.0
        }, rest.1)
    }
}

/// What an acknowledgement does, range by range.
pub open spec fn ack_ranges(es: Seq<EntryView>, rtt: RttView, ranges: Seq<(u32, u32)>, now: u64) -> (
    Seq<EntryView>,
    RttView,
)
    decreases ranges.len(),
{
    if ranges.len() == 0 {
        (es, rtt)
    } else {
        let step = ack_range(es, rtt, ranges[0].0, ranges[0].1, now);
        ack_ranges(step.0, step.1, ranges.drop_first(), now)
    }
}

/// A counter one higher, stopping at the top.
pub open spec fn bump(n: u32) -> u32 {
    if n == u32::MAX {
        n
    } else {
        (n + 1) as u32
    }
}

/// What one range of a negative acknowledgement does: every datagram in it is marked
/// sent again now, and handed back to send.
pub open spec fn nack_range(es: Seq<EntryView>, start: u32, end: u32, now: u64) -> (
    Seq<EntryView>,
    Seq<Seq<u8>>,
)
    decreases es.len(),
{
    if es.len() == 0 {
        (es, Seq::empty())
    } else {
        let e = es[0];
        let rest = nack_range(es.drop_first(), start, end, now);
        if start <= e.0 <= end {
            (seq![(e.0, e.1, now, bump(e.3))] + rest.0, seq![e.1] + rest.1)
        } else {
            (seq![e] + rest.0, rest.1)
        }
    }
}

/// What a negative acknowledgement does, range by range.
pub open spec fn nack_ranges(es: Seq<EntryView>, ranges: Seq<(u32, u32)>, now: u64) -> (
    Seq<EntryView>,
    Seq<Seq<u8>>,
)
    decreases ranges.len(),
{
    if ranges.len() == 0 {
        (es, Seq::empty())
    } else {
        let step = nack_range(es, ranges[0].0, ranges[0].1, now);
        let rest = nack_ranges(step.0, ranges.drop_first(), now);
        (rest.0, step.1 + rest.1)
    }
}

/// `base` doubled `retries` times, capped at `max`.
pub open spec fn backoff(base: u64, retries: u32, max: u64) -> u64 {
    let factor: int = if retries < 32 {
        vstd::arithmetic::power2::pow2(retries as nat) as int
    } else {
        u32::MAX as int
    };
    let t = base * factor;
    if t > max {
        max
    } else {
        t as u64
    }
}

/// What a timer check does: every datagram whose backed-off timeout has passed is
/// marked sent again now, and handed back to send.
pub open spec fn due_spec(es: Seq<EntryView>, base: u64, max: u64, now: u64) -> (
    Seq<EntryView>,
    Seq<Seq<u8>>,
)
    decreases es.len(),
{
    if es.len() == 0 {
        (es, Seq::empty())
    } else {
        let e = es[0];
        let rest = due_spec(es.drop_first(), base, max, now);
        if elapsed(now, e.2) >= backoff(base, e.3, max) {
            (seq![(e.0, e.1, now, bump(e.3))] + rest.0, seq![e.1] + rest.1)
        } else {
            (seq![e] + rest.0, rest.1)
        }
    }
}

/// A copy of a datagram's bytes.
fn copy_bytes(v: &Vec<u8>) -> (out: Vec<u8>)
    ensures
        out@ == v@,
{
    let mut out: Vec<u8> = Vec::new();
    let mut i: usize = 0;
    while i < v.len()
        invariant
            i <= v@.len(),
            out@ == v@.take(i as int),
        decreases v@.len() - i,
    {
        out.push(v[i]);
        proof {
            assert(v@.take(i + 1) =~= v@.take(i as int).push(v@[i as int]));
        }
        i = i + 1;
    }
    proof {
        assert(v@.take(i as int) =~= v@);
    }
    out
}

/// `base` doubled `retries` times, capped at `max`.
fn backoff_of(base: u64, retries: u32, max: u64) -> (b: u64)
    ensures
        b == backoff(base, retries, max),
{
    let factor: u32 = if retries < 32 {
        1u32 << retries
    } else {
        u32::MAX
    };
    proof {
        if retries < 32 {
            vstd::bits::lemma_u32_pow2_no_overflow(retries as nat);
            vstd::bits::lemma_u32_shl_is_mul(1, retries);
        }
    }
    assert(base as u128 * factor as u128 <= u64::MAX as u128 * u32::MAX as u128) by (nonlinear_arith)
        requires
            base <= u64::MAX,
            factor <= u32::MAX,
    ;
    let t: u128 = base as u128 * factor as u128;
    if t > max as u128 {
        max
    } else {
        t as u64
    }
}

/// Whether some datagram has been retried more than `max` times.
pub open spec fn over_retried(es: Seq<EntryView>, max: u32) -> bool {
    exists|i: int| 0 <= i < es.len() && (#[trigger] es[i]).3 > max
}

/// A retransmitter as the contracts see it: its limits, the estimate, the held
/// datagrams in sequence order, and whether the peer has been given up on.
pub type RetransmitView = ((u64, u64, u32, usize), RttView, Seq<EntryView>, bool);

/// Holds sent datagrams until they are acknowledged, and says when to send them again.
#[derive(Debug)]
pub struct Retransmitter {
    limits: Limits,
    rtt: Rtt,
    in_flight: Vec<InFlight>,
    dead: bool,
}

impl View for Retransmitter {
    type V = RetransmitView;

    closed spec fn view(&self) -> RetransmitView {
        (
            (self.limits.min_rto, self.limits.max_rto, self.limits.max_retries, self.limits.max_in_flight),
            self.rtt@,
            entries_view(self.in_flight@),
            self.dead,
        )
    }
}

impl Retransmitter {
    #[verifier::type_invariant]
    closed spec fn well_formed(self) -> bool {
        &&& sorted(entries_view(self.in_flight@))
        &&& self.in_flight@.len() <= self.limits.max_in_flight
        &&& self.rtt@.2 == self.limits.min_rto
        &&& self.rtt@.3 == self.limits.max_rto
    }

    /// A retransmitter with the given limits.
    pub fn new(limits: Limits) -> (r: Self)
        ensures
            r@ == (
                (limits.min_rto, limits.max_rto, limits.max_retries, limits.max_in_flight),
                (None::<u64>, 0u64, limits.min_rto, limits.max_rto),
                Seq::<EntryView>::empty(),
                false,
            ),
    {
        let r = Retransmitter { rtt: Rtt::new(limits.min_rto, limits.max_rto), limits, in_flight: Vec::new(), dead: false };
        proof {
            assert(entries_view(r.in_flight@) =~= Seq::<EntryView>::empty());
        }
        r
    }

    /// The round trip estimate.
    pub fn rtt(&self) -> (r: &Rtt)
        ensures
            r@ == self@.1,
    {
        &self.rtt
    }

    /// Datagrams awaiting acknowledgement.
    pub fn in_flight(&self) -> (n: usize)
        ensures
            n == self@.2.len(),
            n <= self@.0.3,
    {
        proof {
            use_type_invariant(self);
        }
        self.in_flight.len()
    }

    /// Whether a datagram has been retried past the limit.
    pub fn is_dead(&self) -> (d: bool)
        ensures
            d == self@.3,
    {
        self.dead
    }

    /// Records a datagram as sent. Refused when the window is full; a sequence number
    /// already held is replaced.
    pub fn track(&mut self, sequence: u32, datagram: Vec<u8>, now: u64) -> (res: Result<(), WindowFull>)
        ensures
            old(self)@.2.len() >= old(self)@.0.3 ==> res is Err && final(self)@ == old(self)@,
            old(self)@.2.len() < old(self)@.0.3 ==> res is Ok && final(self)@ == (
                old(self)@.0,
                old(self)@.1,
                placed(old(self)@.2, (sequence, datagram@, now, 0u32)),
                old(self)@.3,
            ),
    {
        proof {
            use_type_invariant(&*self);
        }
        if self.in_flight.len() >= self.limits.max_in_flight {
            return Err(WindowFull);
        }
        let ghost es = entries_view(self.in_flight@);
        let ghost ev = (sequence, datagram@, now, 0u32);
        let mut v: Vec<InFlight> = Vec::new();
        std::mem::swap(&mut v, &mut self.in_flight);
        let mut p: usize = 0;
        proof {
            assert(es.skip(0) =~= es);
        }
        while p < v.len() && v[p].sequence < sequence
            invariant
                p <= v@.len(),
                es == entries_view(v@),
                first_at_least(es, sequence) == p + first_at_least(es.skip(p as int), sequence),
            decreases v@.len() - p,
        {
            proof {
                assert(es.skip(p as int).drop_first() =~= es.skip(p + 1));
            }
            p = p + 1;
        }
        proof {
            assert(first_at_least(es.skip(p as int), sequence) == 0);
            lemma_placed_sorted(es, ev);
        }
        let e = InFlight { sequence, datagram, sent_at: now, retries: 0 };
        if p < v.len() && v[p].sequence == sequence {
            v.set(p, e);
            proof {
                assert(entries_view(v@) =~= placed(es, ev));
            }
        } else {
            v.insert(p, e);
            proof {
                assert(entries_view(v@) =~= placed(es, ev));
            }
        }
        self.in_flight = v;
        Ok(())
    }

    /// Clears acknowledged datagrams and updates the estimate from those sent once.
    /// Walking what is held, not the range, keeps a sixteen-million-wide record cheap.
    pub fn on_ack(&mut self, ack: &Acknowledgement, now: u64)
        ensures
            final(self)@ == (
                old(self)@.0,
                ack_ranges(old(self)@.2, old(self)@.1, ack@, now).1,
                ack_ranges(old(self)@.2, old(self)@.1, ack@, now).0,
                old(self)@.3,
            ),
    {
        proof {
            use_type_invariant(&*self);
        }
        let ghost whole = ack_ranges(self@.2, self@.1, ack@, now);
        let mut k: usize = 0;
        proof {
            assert(ack@.skip(0) =~= ack@);
        }
        while k < ack.ranges.len()
            invariant
                k <= ack@.len(),
                self@.0 == old(self)@.0,
                self@.3 == old(self)@.3,
                whole == ack_ranges(self@.2, self@.1, ack@.skip(k as int), now),
            decreases ack@.len() - k,
        {
            let (start, end) = ack.ranges[k];
            proof {
                use_type_invariant(&*self);
                assert(ack@.skip(k as int).drop_first() =~= ack@.skip(k + 1));
                assert(ack@.skip(k as int)[0] == (start, end));
            }
            self.ack_range(start, end, now);
            k = k + 1;
        }
        proof {
            assert(ack@.skip(k as int) =~= Seq::<(u32, u32)>::empty());
        }
    }

    /// Clears the datagrams one acknowledged range covers.
    fn ack_range(&mut self, start: u32, end: u32, now: u64)
        ensures
            final(self)@ == (
                old(self)@.0,
                ack_range(old(self)@.2, old(self)@.1, start, end, now).1,
                ack_range(old(self)@.2, old(self)@.1, start, end, now).0,
                old(self)@.3,
            ),
    {
        proof {
            use_type_invariant(&*self);
            lemma_ack_range_from(self@.2, self@.1, start, end, now);
        }
        let ghost whole = ack_range(self@.2, self@.1, start, end, now);
        let mut entries: Vec<InFlight> = Vec::new();
        std::mem::swap(&mut entries, &mut self.in_flight);
        let mut kept: Vec<InFlight> = Vec::new();
        let mut rtt = self.rtt.clone_estimate();
        proof {
            assert(entries_view(kept@) =~= Seq::<EntryView>::empty());
            assert(Seq::<EntryView>::empty() + whole.0 =~= whole.0);
        }
        while entries.len() > 0
            invariant
                rtt@.2 == self.limits.min_rto,
                rtt@.3 == self.limits.max_rto,
                sorted(whole.0),
                whole.0.len() <= self.limits.max_in_flight,
                whole == (entries_view(kept@) + ack_range(entries_view(entries@), rtt@, start, end, now).0, ack_range(
                    entries_view(entries@),
                    rtt@,
                    start,
                    end,
                    now,
                ).1),
            decreases entries@.len(),
        {
            let ghost es = entries_view(entries@);
            let e = entries.remove(0);
            proof {
                assert(es.drop_first() =~= entries_view(entries@));
                assert(es[0] == (e.sequence, e.datagram@, e.sent_at, e.retries));
            }
            if start <= e.sequence && e.sequence <= end {
                if e.retries == 0 {
                    let trip: u64 = if now >= e.sent_at {
                        now - e.sent_at
                    } else {
                        0
                    };
                    rtt.sample(trip);
                }
            } else {
                let ghost ev = (e.sequence, e.datagram@, e.sent_at, e.retries);
                let ghost rest = ack_range(entries_view(entries@), rtt@, start, end, now).0;
                kept.push(e);
                proof {
                    assert(entries_view(kept@) + rest =~= entries_view(kept@).drop_last() + (seq![ev] + rest));
                }
            }
        }
        proof {
            assert(entries_view(kept@) + Seq::<EntryView>::empty() =~= entries_view(kept@));
        }
        self.in_flight = kept;
        self.rtt = rtt;
    }

    /// Datagrams the peer reported missing, to send again straight away.
    pub fn on_nack(&mut self, nack: &Acknowledgement, now: u64) -> (out: Vec<Vec<u8>>)
        ensures
            ({
                let r = nack_ranges(old(self)@.2, nack@, now);
                &&& final(self)@ == (old(self)@.0, old(self)@.1, r.0, old(self)@.3 || over_retried(
                    r.0,
                    old(self)@.0.2,
                ))
                &&& out@.map_values(|d: Vec<u8>| d@) == r.1
            }),
    {
        let ghost whole = nack_ranges(self@.2, nack@, now);
        let mut out: Vec<Vec<u8>> = Vec::new();
        let mut k: usize = 0;
        proof {
            assert(out@.map_values(|d: Vec<u8>| d@) =~= Seq::<Seq<u8>>::empty());
            assert(nack@.skip(0) =~= nack@);
            assert(Seq::<Seq<u8>>::empty() + whole.1 =~= whole.1);
        }
        while k < nack.ranges.len()
            invariant
                k <= nack@.len(),
                self@.0 == old(self)@.0,
                self@.1 == old(self)@.1,
                self@.3 == old(self)@.3,
                whole == (nack_ranges(self@.2, nack@.skip(k as int), now).0, out@.map_values(|d: Vec<u8>| d@)
                    + nack_ranges(self@.2, nack@.skip(k as int), now).1),
            decreases nack@.len() - k,
        {
            let (start, end) = nack.ranges[k];
            proof {
                assert(nack@.skip(k as int).drop_first() =~= nack@.skip(k + 1));
                assert(nack@.skip(k as int)[0] == (start, end));
            }
            let ghost before = out@.map_values(|d: Vec<u8>| d@);
            let mut sent = self.resend_range(start, end, now);
            let ghost got = sent@.map_values(|d: Vec<u8>| d@);
            out.append(&mut sent);
            proof {
                assert(out@.map_values(|d: Vec<u8>| d@) =~= before + got);
                let rest = nack_ranges(self@.2, nack@.skip(k + 1), now);
                assert(before + (got + rest.1) =~= (before + got) + rest.1);
            }
            k = k + 1;
        }
        proof {
            assert(nack@.skip(k as int) =~= Seq::<(u32, u32)>::empty());
            assert(out@.map_values(|d: Vec<u8>| d@) + Seq::<Seq<u8>>::empty() =~= out@.map_values(|d: Vec<u8>| d@));
        }
        self.check_retries();
        out
    }

    /// Marks the datagrams one range covers as sent now, and hands them back.
    fn resend_range(&mut self, start: u32, end: u32, now: u64) -> (out: Vec<Vec<u8>>)
        ensures
            final(self)@ == (old(self)@.0, old(self)@.1, nack_range(old(self)@.2, start, end, now).0, old(self)@.3),
            out@.map_values(|d: Vec<u8>| d@) == nack_range(old(self)@.2, start, end, now).1,
    {
        proof {
            use_type_invariant(&*self);
            lemma_nack_range_keeps(self@.2, start, end, now);
            lemma_same_keys_sorted(self@.2, nack_range(self@.2, start, end, now).0);
        }
        let ghost whole = nack_range(self@.2, start, end, now);
        let mut entries: Vec<InFlight> = Vec::new();
        std::mem::swap(&mut entries, &mut self.in_flight);
        let mut kept: Vec<InFlight> = Vec::new();
        let mut out: Vec<Vec<u8>> = Vec::new();
        proof {
            assert(out@.map_values(|d: Vec<u8>| d@) =~= Seq::<Seq<u8>>::empty());
            assert(entries_view(kept@) =~= Seq::<EntryView>::empty());
            assert(Seq::<EntryView>::empty() + whole.0 =~= whole.0);
            assert(Seq::<Seq<u8>>::empty() + whole.1 =~= whole.1);
        }
        while entries.len() > 0
            invariant
                sorted(whole.0),
                whole.0.len() <= self.limits.max_in_flight,
                whole == (entries_view(kept@) + nack_range(entries_view(entries@), start, end, now).0, out@.map_values(
                    |d: Vec<u8>| d@,
                ) + nack_range(entries_view(entries@), start, end, now).1),
            decreases entries@.len(),
        {
            let ghost es = entries_view(entries@);
            let e = entries.remove(0);
            proof {
                assert(es.drop_first() =~= entries_view(entries@));
                assert(es[0] == (e.sequence, e.datagram@, e.sent_at, e.retries));
            }
            let ghost rest = nack_range(entries_view(entries@), start, end, now);
            let ghost ko = entries_view(kept@);
            let ghost oo = out@.map_values(|d: Vec<u8>| d@);
            if start <= e.sequence && e.sequence <= end {
                let copy = copy_bytes(&e.datagram);
                out.push(copy);
                let ne = InFlight {
                    sequence: e.sequence,
                    datagram: e.datagram,
                    sent_at: now,
                    retries: if e.retries == u32::MAX {
                        e.retries
                    } else {
                        e.retries + 1
                    },
                };
                let ghost nv = (ne.sequence, ne.datagram@, ne.sent_at, ne.retries);
                kept.push(ne);
                proof {
                    assert(entries_view(kept@) =~= ko.push(nv));
                    assert(ko.push(nv) + rest.0 =~= ko + (seq![nv] + rest.0));
                    assert(out@.map_values(|d: Vec<u8>| d@) =~= oo.push(es[0].1));
                    assert(oo.push(es[0].1) + rest.1 =~= oo + (seq![es[0].1] + rest.1));
                }
            } else {
                let ghost ev = (e.sequence, e.datagram@, e.sent_at, e.retries);
                kept.push(e);
                proof {
                    assert(entries_view(kept@) =~= ko.push(ev));
                    assert(ko.push(ev) + rest.0 =~= ko + (seq![ev] + rest.0));
                }
            }
        }
        proof {
            assert(entries_view(kept@) + Seq::<EntryView>::empty() =~= entries_view(kept@));
            assert(out@.map_values(|d: Vec<u8>| d@) + Seq::<Seq<u8>>::empty() =~= out@.map_values(
                |d: Vec<u8>| d@,
            ));
        }
        self.in_flight = kept;
        out
    }

    /// Datagrams whose backed-off timeout has passed, to send again.
    pub fn due(&mut self, now: u64) -> (out: Vec<Vec<u8>>)
        requires
            old(self)@.1.0 is Some ==> old(self)@.0.0 <= old(self)@.0.1,
        ensures
            ({
                let r = due_spec(old(self)@.2, timeout_spec(old(self)@.1), old(self)@.0.1, now);
                &&& final(self)@ == (old(self)@.0, old(self)@.1, r.0, old(self)@.3 || over_retried(
                    r.0,
                    old(self)@.0.2,
                ))
                &&& out@.map_values(|d: Vec<u8>| d@) == r.1
            }),
    {
        proof {
            use_type_invariant(&*self);
        }
        let base = self.rtt.timeout();
        let max = self.limits.max_rto;
        proof {
            lemma_due_keeps(self@.2, base, max, now);
            lemma_same_keys_sorted(self@.2, due_spec(self@.2, base, max, now).0);
        }
        let ghost whole = due_spec(self@.2, base, max, now);
        let mut entries: Vec<InFlight> = Vec::new();
        std::mem::swap(&mut entries, &mut self.in_flight);
        let mut kept: Vec<InFlight> = Vec::new();
        let mut out: Vec<Vec<u8>> = Vec::new();
        proof {
            assert(out@.map_values(|d: Vec<u8>| d@) =~= Seq::<Seq<u8>>::empty());
            assert(entries_view(kept@) =~= Seq::<EntryView>::empty());
            assert(Seq::<EntryView>::empty() + whole.0 =~= whole.0);
            assert(Seq::<Seq<u8>>::empty() + whole.1 =~= whole.1);
        }
        while entries.len() > 0
            invariant
                sorted(whole.0),
                whole.0.len() <= self.limits.max_in_flight,
                whole == (entries_view(kept@) + due_spec(entries_view(entries@), base, max, now).0, out@.map_values(
                    |d: Vec<u8>| d@,
                ) + due_spec(entries_view(entries@), base, max, now).1),
            decreases entries@.len(),
        {
            let ghost es = entries_view(entries@);
            let e = entries.remove(0);
            proof {
                assert(es.drop_first() =~= entries_view(entries@));
                assert(es[0] == (e.sequence, e.datagram@, e.sent_at, e.retries));
            }
            let ghost rest = due_spec(entries_view(entries@), base, max, now);
            let ghost ko = entries_view(kept@);
            let ghost oo = out@.map_values(|d: Vec<u8>| d@);
            let waited: u64 = if now >= e.sent_at {
                now - e.sent_at
            } else {
                0
            };
            if waited >= backoff_of(base, e.retries, max) {
                let copy = copy_bytes(&e.datagram);
                out.push(copy);
                let ne = InFlight {
                    sequence: e.sequence,
                    datagram: e.datagram,
                    sent_at: now,
                    retries: if e.retries == u32::MAX {
                        e.retries
                    } else {
                        e.retries + 1
                    },
                };
                let ghost nv = (ne.sequence, ne.datagram@, ne.sent_at, ne.retries);
                kept.push(ne);
                proof {
                    assert(entries_view(kept@) =~= ko.push(nv));
                    assert(ko.push(nv) + rest.0 =~= ko + (seq![nv] + rest.0));
                    assert(out@.map_values(|d: Vec<u8>| d@) =~= oo.push(es[0].1));
                    assert(oo.push(es[0].1) + rest.1 =~= oo + (seq![es[0].1] + rest.1));
                }
            } else {
                let ghost ev = (e.sequence, e.datagram@, e.sent_at, e.retries);
                kept.push(e);
                proof {
                    assert(entries_view(kept@) =~= ko.push(ev));
                    assert(ko.push(ev) + rest.0 =~= ko + (seq![ev] + rest.0));
                }
            }
        }
        proof {
            assert(entries_view(kept@) + Seq::<EntryView>::empty() =~= entries_view(kept@));
            assert(out@.map_values(|d: Vec<u8>| d@) + Seq::<Seq<u8>>::empty() =~= out@.map_values(
                |d: Vec<u8>| d@,
            ));
        }
        self.in_flight = kept;
        self.check_retries();
        out
    }

    /// Gives the peer up once any datagram has been retried past the limit.
    fn check_retries(&mut self)
        ensures
            final(self)@ == (old(self)@.0, old(self)@.1, old(self)@.2, old(self)@.3 || over_retried(
                old(self)@.2,
                old(self)@.0.2,
            )),
    {
        let mut i: usize = 0;
        while i < self.in_flight.len()
            invariant
                i <= self.in_flight@.len(),
                self@ == old(self)@,
                forall|j: int| 0 <= j < i ==> !((#[trigger] self@.2[j]).3 > self@.0.2),
            decreases self.in_flight@.len() - i,
        {
            if self.in_flight[i].retries > self.limits.max_retries {
                proof {
                    use_type_invariant(&*self);
                    assert(self@.2[i as int].3 > self@.0.2);
                }
                self.dead = true;
                return;
            }
            i = i + 1;
        }
    }
}

/// Every datagram an acknowledgement keeps was held before.
proof fn lemma_ack_range_from(es: Seq<EntryView>, rtt: RttView, start: u32, end: u32, now: u64)
    ensures
        forall|k: int| 0 <= k < ack_range(es, rtt, start, end, now).0.len() ==> es.contains(
            #[trigger] ack_range(es, rtt, start, end, now).0[k],
        ),
        sorted(es) ==> sorted(ack_range(es, rtt, start, end, now).0),
        ack_range(es, rtt, start, end, now).0.len() <= es.len(),
    decreases es.len(),
{
    if es.len() > 0 {
        let e = es[0];
        let hit = start <= e.0 <= end;
        let rtt2 = if hit && e.3 == 0 {
            sample_spec(rtt, elapsed(now, e.2))
        } else {
            rtt
        };
        let tail = es.drop_first();
        lemma_ack_range_from(tail, rtt2, start, end, now);
        let rest = ack_range(tail, rtt2, start, end, now).0;
        let out = ack_range(es, rtt, start, end, now).0;
        assert forall|k: int| 0 <= k < out.len() implies es.contains(#[trigger] out[k]) by {
            if hit {
                assert(tail.contains(rest[k]));
                let j = choose|j: int| 0 <= j < tail.len() && tail[j] == rest[k];
                assert(es[j + 1] == rest[k]);
            } else if k == 0 {
                assert(es[0] == out[0]);
            } else {
                assert(out[k] == rest[k - 1]);
                assert(tail.contains(rest[k - 1]));
                let j = choose|j: int| 0 <= j < tail.len() && tail[j] == rest[k - 1];
                assert(es[j + 1] == rest[k - 1]);
            }
        }
        if sorted(es) {
            assert(sorted(tail)) by {
                assert forall|i: int, j: int| 0 <= i < j < tail.len() implies (#[trigger] tail[i]).0 < (
                #[trigger] tail[j]).0 by {
                    assert(tail[i] == es[i + 1] && tail[j] == es[j + 1]);
                }
            }
            if !hit {
                assert forall|i: int, j: int| 0 <= i < j < out.len() implies (#[trigger] out[i]).0 < (
                #[trigger] out[j]).0 by {
                    assert(out[j] == rest[j - 1]);
                    assert(tail.contains(rest[j - 1]));
                    let m = choose|m: int| 0 <= m < tail.len() && tail[m] == rest[j - 1];
                    assert(es[m + 1] == rest[j - 1]);
                    if i == 0 {
                        assert(es[0].0 < es[m + 1].0);
                    } else {
                        assert(out[i] == rest[i - 1]);
                    }
                }
            }
        }
    }
}

/// Marking datagrams as sent again keeps their sequence numbers where they were.
proof fn lemma_nack_range_keeps(es: Seq<EntryView>, start: u32, end: u32, now: u64)
    ensures
        nack_range(es, start, end, now).0.len() == es.len(),
        forall|k: int| 0 <= k < es.len() ==> (#[trigger] nack_range(es, start, end, now).0[k]).0 == es[k].0,
    decreases es.len(),
{
    if es.len() > 0 {
        lemma_nack_range_keeps(es.drop_first(), start, end, now);
        let out = nack_range(es, start, end, now).0;
        let rest = nack_range(es.drop_first(), start, end, now).0;
        assert forall|k: int| 0 <= k < es.len() implies (#[trigger] out[k]).0 == es[k].0 by {
            if k > 0 {
                assert(out[k] == rest[k - 1]);
                assert(es.drop_first()[k - 1] == es[k]);
            }
        }
    }
}

/// A timer check keeps sequence numbers where they were.
proof fn lemma_due_keeps(es: Seq<EntryView>, base: u64, max: u64, now: u64)
    ensures
        due_spec(es, base, max, now).0.len() == es.len(),
        forall|k: int| 0 <= k < es.len() ==> (#[trigger] due_spec(es, base, max, now).0[k]).0 == es[k].0,
    decreases es.len(),
{
    if es.len() > 0 {
        lemma_due_keeps(es.drop_first(), base, max, now);
        let out = due_spec(es, base, max, now).0;
        let rest = due_spec(es.drop_first(), base, max, now).0;
        assert forall|k: int| 0 <= k < es.len() implies (#[trigger] out[k]).0 == es[k].0 by {
            if k > 0 {
                assert(out[k] == rest[k - 1]);
                assert(es.drop_first()[k - 1] == es[k]);
            }
        }
    }
}

/// The same sequence numbers in the same places keep a list sorted.
proof fn lemma_same_keys_sorted(a: Seq<EntryView>, b: Seq<EntryView>)
    requires
        sorted(a),
        a.len() == b.len(),
        forall|k: int| 0 <= k < a.len() ==> (#[trigger] b[k]).0 == a[k].0,
    ensures
        sorted(b),
{
    assert forall|i: int, j: int| 0 <= i < j < b.len() implies (#[trigger] b[i]).0 < (#[trigger] b[j]).0 by {
        assert(a[i].0 < a[j].0);
    }
}

} // verus!
