//! Splitting payloads that do not fit in a datagram, and putting them back together.
//!
//! Reassembly is the most exposed allocation in the crate: a peer states how many
//! fragments are coming and we hold what has arrived until the rest does. Every bound in
//! [`Limits`] exists because of a specific way that goes wrong.
//!
//! Times are nanoseconds on a monotonic clock the caller reads.
use crate::raknet::datagram::DATAGRAM_HEADER_LEN;
use crate::raknet::frame::{header_len_spec, Frame, FrameView, Reliability, Split};
use crate::raknet::retransmit::elapsed;
use std::collections::BTreeMap;
use vstd::prelude::*;

verus! {

broadcast use vstd::laws_cmp::group_laws_cmp;

/// Largest payload one frame can declare, since the length field is a `u16` of bits.
pub const MAX_FRAME_PAYLOAD: usize = 8191;

/// `a - b`, stopping at zero.
pub open spec fn sat_sub(a: nat, b: nat) -> nat {
    if a >= b {
        (a - b) as nat
    } else {
        0
    }
}

/// Bytes available for a fragment's payload inside a datagram of `payload_limit` bytes.
pub open spec fn fragment_capacity_spec(payload_limit: nat) -> nat {
    let c = sat_sub(sat_sub(payload_limit, DATAGRAM_HEADER_LEN as nat), header_len_spec(
        Reliability::ReliableOrdered,
        true,
    ));
    if c < MAX_FRAME_PAYLOAD {
        c
    } else {
        MAX_FRAME_PAYLOAD as nat
    }
}

/// Bytes available for a fragment's payload inside a datagram of `payload_limit` bytes:
/// what is left after the datagram header and a split, ordered frame header, and no
/// more than one frame can declare.
pub fn fragment_capacity(payload_limit: usize) -> (c: usize)
    ensures
        c == fragment_capacity_spec(payload_limit as nat),
{
    let a = payload_limit.saturating_sub(DATAGRAM_HEADER_LEN);
    let b = a.saturating_sub(Frame::header_len(Reliability::ReliableOrdered, true));
    if b < MAX_FRAME_PAYLOAD {
        b
    } else {
        MAX_FRAME_PAYLOAD
    }
}

/// How many pieces of at most `capacity` bytes `len` bytes make.
pub open spec fn piece_count(len: nat, capacity: nat) -> nat {
    if capacity == 0 {
        0
    } else {
        ((len + capacity - 1) / capacity as int) as nat
    }
}

/// The `i`-th piece of `payload` cut every `capacity` bytes.
pub open spec fn piece(payload: Seq<u8>, capacity: nat, i: nat) -> Seq<u8> {
    let start = i * capacity;
    let end: int = if (i + 1) * capacity < payload.len() {
        ((i + 1) * capacity) as int
    } else {
        payload.len() as int
    };
    payload.subrange(start as int, end as int)
}

/// A number as a `u32`, stopping at the top.
pub open spec fn sat_u32(n: nat) -> u32 {
    if n <= u32::MAX {
        n as u32
    } else {
        u32::MAX
    }
}

/// The fragments splitting `payload` under split id `id` gives.
pub open spec fn fragments_of(payload: Seq<u8>, capacity: nat, id: u16) -> Seq<FrameView> {
    let n = piece_count(payload.len(), capacity);
    Seq::new(
        n,
        |i: int|
            (
                Reliability::ReliableOrdered,
                0u32,
                0u32,
                0u32,
                0u8,
                Some(Split { count: sat_u32(n), id, index: sat_u32(i as nat) }),
                piece(payload, capacity, i as nat),
            ),
    )
}

/// The views of a list of frames.
pub open spec fn frames_view(frames: Seq<Frame>) -> Seq<FrameView> {
    frames.map_values(|f: Frame| f@)
}

/// Cuts a payload into fragments and hands out split ids.
#[derive(Debug)]
pub struct Splitter {
    next_id: u16,
}

impl Default for Splitter {
    fn default() -> (s: Self)
        ensures
            s.next_id_spec() == 0,
    {
        Splitter { next_id: 0 }
    }
}

impl Splitter {
    /// The split id the next split payload gets.
    pub closed spec fn next_id_spec(&self) -> u16 {
        self.next_id
    }

    /// Splits `payload` into fragments of at most `capacity` bytes each.
    ///
    /// A payload that already fits is one unsplit frame; a zero capacity yields nothing.
    /// Each split payload takes the next split id, wrapping.
    pub fn split(&mut self, payload: Vec<u8>, capacity: usize) -> (frames: Vec<Frame>)
        ensures
            capacity == 0 ==> frames@.len() == 0 && final(self).next_id_spec() == old(self).next_id_spec(),
            0 < capacity && payload@.len() <= capacity ==> frames_view(frames@) == seq![
                (Reliability::ReliableOrdered, 0u32, 0u32, 0u32, 0u8, None::<Split>, payload@),
            ] && final(self).next_id_spec() == old(self).next_id_spec(),
            0 < capacity && payload@.len() > capacity ==> frames_view(frames@) == fragments_of(
                payload@,
                capacity as nat,
                old(self).next_id_spec(),
            ) && final(self).next_id_spec() == (if old(self).next_id_spec() == u16::MAX {
                0
            } else {
                old(self).next_id_spec() + 1
            }),
    {
        if capacity == 0 {
            return Vec::new();
        }
        if payload.len() <= capacity {
            let f = Frame::new(Reliability::ReliableOrdered, payload);
            let v = vec![f];
            proof {
                assert(frames_view(v@) =~= seq![f@]);
            }
            return v;
        }
        let id = self.next_id;
        self.next_id = self.next_id.wrapping_add(1);
        let len = payload.len();
        let q = len / capacity;
        let r = len % capacity;
        proof {
            lemma_ceil_div(len as nat, capacity as nat);
        }
        let n: usize = if r == 0 {
            q
        } else {
            q + 1
        };
        let count: u32 = if n <= u32::MAX as usize {
            n as u32
        } else {
            u32::MAX
        };
        let ghost target = fragments_of(payload@, capacity as nat, id);
        let mut frames: Vec<Frame> = Vec::new();
        let mut i: usize = 0;
        while i < n
            invariant
                i <= n,
                n == piece_count(len as nat, capacity as nat),
                len == payload@.len(),
                capacity > 0,
                count == sat_u32(n as nat),
                target == fragments_of(payload@, capacity as nat, id),
                frames_view(frames@) == target.take(i as int),
            decreases n - i,
        {
            proof {
                lemma_piece_bounds(len as nat, capacity as nat, i as nat);
            }
            let start = i * capacity;
            let end = if capacity < len - start {
                start + capacity
            } else {
                len
            };
            let mut chunk: Vec<u8> = Vec::new();
            let mut k: usize = start;
            while k < end
                invariant
                    start <= k <= end <= payload@.len(),
                    chunk@ == payload@.subrange(start as int, k as int),
                decreases end - k,
            {
                chunk.push(payload[k]);
                proof {
                    assert(payload@.subrange(start as int, k + 1) =~= payload@.subrange(start as int, k as int).push(payload@[k as int]));
                }
                k = k + 1;
            }
            let index: u32 = if i <= u32::MAX as usize {
                i as u32
            } else {
                u32::MAX
            };
            let f = Frame {
                reliability: Reliability::ReliableOrdered,
                reliable_index: 0,
                sequence_index: 0,
                order_index: 0,
                order_channel: 0,
                split: Some(Split { count, id, index }),
                payload: chunk,
            };
            proof {
                assert(f@ == target[i as int]);
                assert(frames_view(frames@.push(f)) =~= frames_view(frames@).push(f@));
                assert(target.take(i + 1) =~= target.take(i as int).push(target[i as int]));
            }
            frames.push(f);
            i = i + 1;
        }
        proof {
            assert(target.take(n as int) =~= target);
        }
        frames
    }
}

/// How many pieces: the quotient, and one more for a remainder.
proof fn lemma_ceil_div(len: nat, capacity: nat)
    requires
        capacity > 0,
        len <= usize::MAX,
    ensures
        len % capacity != 0 ==> len / capacity < len,
        piece_count(len, capacity) == len / capacity + (if len % capacity == 0 {
            0nat
        } else {
            1nat
        }),
{
    let q = len / capacity;
    let r = len % capacity;
    vstd::arithmetic::div_mod::lemma_fundamental_div_mod(len as int, capacity as int);
    if r == 0 {
        vstd::arithmetic::div_mod::lemma_fundamental_div_mod_converse(
            (len + capacity - 1) as int,
            capacity as int,
            q as int,
            (capacity - 1) as int,
        );
    } else {
        assert(capacity >= 2);
        assert(q * capacity >= q * 2) by (nonlinear_arith)
            requires
                capacity >= 2,
        ;
        assert(q + 1 <= len);
        assert((q + 1) * capacity == q * capacity + capacity) by (nonlinear_arith);
        vstd::arithmetic::div_mod::lemma_fundamental_div_mod_converse(
            (len + capacity - 1) as int,
            capacity as int,
            (q + 1) as int,
            (r - 1) as int,
        );
    }
}

/// Where piece `i` starts and ends, for a piece that exists.
proof fn lemma_piece_bounds(len: nat, capacity: nat, i: nat)
    requires
        capacity > 0,
        i < piece_count(len, capacity),
    ensures
        i * capacity < len,
        i * capacity + capacity <= len + capacity,
        (i + 1) * capacity == i * capacity + capacity,
{
    vstd::arithmetic::div_mod::lemma_fundamental_div_mod((len + capacity - 1) as int, capacity as int);
    assert((i + 1) * capacity == i * capacity + capacity) by (nonlinear_arith);
    assert(i * capacity < len) by (nonlinear_arith)
        requires
            capacity > 0,
            i < (len + capacity - 1) / capacity as int,
    ;
}

/// What a session will spend on reassembly before giving up on a peer.
#[derive(Debug, Clone, Copy)]
pub struct Limits {
    /// Largest payload that may be reassembled.
    pub max_payload: usize,
    /// Largest fragment count a peer may announce.
    pub max_fragments: u32,
    /// Concurrent split ids.
    pub max_pending: usize,
    /// How long an incomplete reassembly survives, in nanoseconds.
    pub timeout: u64,
}

impl Default for Limits {
    fn default() -> (l: Self)
        ensures
            l.max_payload == 4 * 1024 * 1024,
            l.max_fragments == 4096,
            l.max_pending == 8,
            l.timeout == 10_000_000_000,
    {
        Limits { max_payload: 4 * 1024 * 1024, max_fragments: 4096, max_pending: 8, timeout: 10_000_000_000 }
    }
}

/// Why a fragment was refused.
#[derive(Debug, Clone, Copy, PartialEq, Eq, Structural)]
pub enum SplitError {
    /// A count of zero, an index at or past the count, or a count that changed.
    Inconsistent {
        /// Announced fragment count.
        count: u32,
        /// Announced index.
        index: u32,
    },
    /// The announced fragment count is beyond the limit.
    TooManyFragments(u32),
    /// The payload would grow past the limit.
    PayloadTooLarge,
    /// Too many reassemblies already open.
    TooManyPending,
    /// The same index arrived twice.
    DuplicateIndex(u32),
}

/// One reassembly in progress.
#[derive(Debug)]
struct Pending {
    id: u16,
    count: u32,
    fragments: BTreeMap<u32, Vec<u8>>,
    bytes: usize,
    first_seen: u64,
}

/// A reassembly as the contracts see it: split id, announced count, fragments by index,
/// bytes held, and when its first fragment came.
pub type PendingView = (u16, u32, Map<u32, Seq<u8>>, usize, u64);

/// The bytes of each fragment.
pub open spec fn fragments_view(m: Map<u32, Vec<u8>>) -> Map<u32, Seq<u8>> {
    m.map_values(|v: Vec<u8>| v@)
}

spec fn pending_view(p: Pending) -> PendingView {
    (p.id, p.count, fragments_view(p.fragments@), p.bytes, p.first_seen)
}

spec fn pendings_view(ps: Seq<Pending>) -> Seq<PendingView> {
    ps.map_values(|p: Pending| pending_view(p))
}

/// Bytes held across reassemblies.
pub open spec fn total_bytes(ps: Seq<PendingView>) -> nat
    decreases ps.len(),
{
    if ps.len() == 0 {
        0
    } else {
        total_bytes(ps.drop_last()) + ps.last().3 as nat
    }
}

/// Where the reassembly for split id `id` sits, if one is open.
pub open spec fn find_id(ps: Seq<PendingView>, id: u16) -> Option<int>
    decreases ps.len(),
{
    if ps.len() == 0 {
        None
    } else if ps.last().0 == id {
        Some(ps.len() - 1)
    } else {
        find_id(ps.drop_last(), id)
    }
}

/// The first `n` fragments, in index order, back to back.
pub open spec fn assemble(m: Map<u32, Seq<u8>>, n: nat) -> Seq<u8>
    decreases n,
{
    if n == 0 {
        Seq::empty()
    } else {
        assemble(m, (n - 1) as nat) + m[(n - 1) as u32]
    }
}

/// A reassembler as the contracts see it: its limits, the reassemblies open, and the
/// bytes they hold.
pub type ReassemblerView = ((usize, u32, usize, u64), Seq<PendingView>, usize);

/// What pushing one frame does: the state after it and what the push answers.
pub open spec fn push_spec(r: ReassemblerView, f: FrameView, now: u64) -> (ReassemblerView, Result<Option<Seq<u8>>, SplitError>) {
    let limits = r.0;
    match f.5 {
        None => (r, Ok(Some(f.6))),
        Some(sp) => if sp.count == 0 || sp.index >= sp.count {
            (r, Err(SplitError::Inconsistent { count: sp.count, index: sp.index }))
        } else if sp.count > limits.1 {
            (r, Err(SplitError::TooManyFragments(sp.count)))
        } else if find_id(r.1, sp.id) is None && r.1.len() >= limits.2 {
            (r, Err(SplitError::TooManyPending))
        } else if r.2 + f.6.len() > limits.0 {
            (r, Err(SplitError::PayloadTooLarge))
        } else {
            let entry = match find_id(r.1, sp.id) {
                Some(i) => r.1[i],
                None => (sp.id, sp.count, Map::<u32, Seq<u8>>::empty(), 0usize, now),
            };
            if entry.1 != sp.count {
                (r, Err(SplitError::Inconsistent { count: sp.count, index: sp.index }))
            } else if entry.2.contains_key(sp.index) {
                (r, Err(SplitError::DuplicateIndex(sp.index)))
            } else {
                let frags = entry.2.insert(sp.index, f.6);
                let grown = (entry.0, entry.1, frags, (entry.3 + f.6.len()) as usize, entry.4);
                let held = (r.2 + f.6.len()) as usize;
                if frags.len() < entry.1 {
                    let ps = match find_id(r.1, sp.id) {
                        Some(i) => r.1.update(i, grown),
                        None => r.1.push(grown),
                    };
                    ((limits, ps, held), Ok(None))
                } else {
                    let ps = match find_id(r.1, sp.id) {
                        Some(i) => r.1.remove(i),
                        None => r.1,
                    };
                    ((limits, ps, (held - grown.3) as usize), Ok(Some(assemble(frags, entry.1 as nat))))
                }
            }
        },
    }
}

/// Whether the reassemblies open are consistent: distinct ids, every fragment index
/// below its count and fewer fragments than the count, and bytes that add up.
pub open spec fn reassembly_wf(r: ReassemblerView) -> bool {
    &&& forall|i: int, j: int| 0 <= i < j < r.1.len() ==> (#[trigger] r.1[i]).0 != (#[trigger] r.1[j]).0
    &&& forall|i: int|
        0 <= i < r.1.len() ==> {
            let p = #[trigger] r.1[i];
            &&& p.2.dom().finite()
            &&& p.2.len() < p.1
            &&& forall|k: u32| p.2.contains_key(k) ==> k < p.1
        }
    &&& r.2 == total_bytes(r.1)
    &&& r.2 <= r.0.0
}

/// Collects fragments until a payload is whole.
#[derive(Debug)]
pub struct Reassembler {
    limits: Limits,
    pending: Vec<Pending>,
    buffered: usize,
}

impl View for Reassembler {
    type V = ReassemblerView;

    closed spec fn view(&self) -> ReassemblerView {
        (
            (self.limits.max_payload, self.limits.max_fragments, self.limits.max_pending, self.limits.timeout),
            pendings_view(self.pending@),
            self.buffered,
        )
    }
}

impl Reassembler {
    #[verifier::type_invariant]
    closed spec fn well_formed(self) -> bool {
        reassembly_wf(self@)
    }

    /// A reassembler with the given limits.
    pub fn new(limits: Limits) -> (r: Self)
        ensures
            r@ == (
                (limits.max_payload, limits.max_fragments, limits.max_pending, limits.timeout),
                Seq::<PendingView>::empty(),
                0usize,
            ),
    {
        let r = Reassembler { limits, pending: Vec::new(), buffered: 0 };
        proof {
            assert(pendings_view(r.pending@) =~= Seq::<PendingView>::empty());
        }
        r
    }

    /// Bytes currently held across all open reassemblies.
    pub fn buffered(&self) -> (n: usize)
        ensures
            n == self@.2,
            n == total_bytes(self@.1),
    {
        proof {
            use_type_invariant(self);
        }
        self.buffered
    }

    /// Open reassemblies.
    pub fn pending(&self) -> (n: usize)
        ensures
            n == self@.1.len(),
    {
        self.pending.len()
    }
}

/// Bytes held, counted from the front.
proof fn lemma_total_front(ps: Seq<PendingView>)
    requires
        ps.len() > 0,
    ensures
        total_bytes(ps) == ps[0].3 + total_bytes(ps.drop_first()),
    decreases ps.len(),
{
    if ps.len() > 1 {
        lemma_total_front(ps.drop_last());
        assert(ps.drop_last().drop_first() =~= ps.drop_first().drop_last());
    } else {
        assert(ps.drop_first() =~= Seq::<PendingView>::empty());
        assert(ps.drop_last() =~= Seq::<PendingView>::empty());
    }
}

/// Bytes held after one reassembly's count changes.
proof fn lemma_total_update(ps: Seq<PendingView>, i: int, p: PendingView)
    requires
        0 <= i < ps.len(),
    ensures
        total_bytes(ps.update(i, p)) + ps[i].3 == total_bytes(ps) + p.3,
        ps[i].3 <= total_bytes(ps),
    decreases ps.len(),
{
    if i == ps.len() - 1 {
        assert(ps.update(i, p).drop_last() =~= ps.drop_last());
    } else {
        lemma_total_update(ps.drop_last(), i, p);
        assert(ps.update(i, p).drop_last() =~= ps.drop_last().update(i, p));
    }
}

/// Bytes held after one reassembly closes.
proof fn lemma_total_remove(ps: Seq<PendingView>, i: int)
    requires
        0 <= i < ps.len(),
    ensures
        total_bytes(ps.remove(i)) + ps[i].3 == total_bytes(ps),
    decreases ps.len(),
{
    if i == ps.len() - 1 {
        assert(ps.remove(i) =~= ps.drop_last());
    } else {
        lemma_total_remove(ps.drop_last(), i);
        assert(ps.remove(i).drop_last() =~= ps.drop_last().remove(i));
    }
}

/// Indices below `n`, as a set.
spec fn below(n: u32) -> Set<u32> {
    Set::new(|k: u32| k < n)
}

/// There are `n` indices below `n`.
proof fn lemma_below_len(n: u32)
    ensures
        below(n).finite(),
        below(n).len() == n,
    decreases n,
{
    if n == 0 {
        assert(below(0) =~= Set::<u32>::empty());
    } else {
        lemma_below_len((n - 1) as u32);
        assert(below(n) =~= below((n - 1) as u32).insert((n - 1) as u32));
    }
}

/// As many fragments as the count, each below it, are all of them.
proof fn lemma_all_present(m: Map<u32, Seq<u8>>, count: u32)
    requires
        m.dom().finite(),
        m.len() >= count,
        forall|k: u32| m.contains_key(k) ==> k < count,
    ensures
        forall|k: u32| k < count ==> m.contains_key(k),
{
    assert forall|k: u32| k < count implies m.contains_key(k) by {
        if !m.contains_key(k) {
            lemma_below_len(count);
            assert(m.dom().subset_of(below(count).remove(k)));
            vstd::set_lib::lemma_len_subset(m.dom(), below(count).remove(k));
        }
    }
}

/// The state after a fragment that leaves its reassembly open is consistent.
proof fn lemma_state_after_grow(before: ReassemblerView, pos: Option<usize>, grown: PendingView, id: u16, len: nat)
    requires
        reassembly_wf(before),
        grown.0 == id,
        grown.2.dom().finite(),
        grown.2.len() < grown.1,
        forall|k: u32| grown.2.contains_key(k) ==> k < grown.1,
        before.2 + len <= before.0.0,
        match pos {
            Some(i) => i < before.1.len() && before.1[i as int].0 == id && grown.3 == before.1[i as int].3 + len,
            None => find_id(before.1, id) is None && grown.3 == len,
        },
    ensures
        reassembly_wf(
            (before.0, match pos {
                Some(i) => before.1.update(i as int, grown),
                None => before.1.push(grown),
            }, (before.2 + len) as usize),
        ),
{
    let ps = match pos {
        Some(i) => before.1.update(i as int, grown),
        None => before.1.push(grown),
    };
    match pos {
        Some(i) => {
            lemma_total_update(before.1, i as int, grown);
        },
        None => {
            lemma_find_none(before.1, id);
            assert(ps.drop_last() =~= before.1);
        },
    }
    assert forall|a: int, b: int| 0 <= a < b < ps.len() implies (#[trigger] ps[a]).0 != (#[trigger] ps[b]).0 by {
        match pos {
            Some(i) => {
                if a != i as int && b != i as int {
                    assert(ps[a] == before.1[a] && ps[b] == before.1[b]);
                } else if a == i as int {
                    assert(ps[b] == before.1[b]);
                    assert(before.1[a].0 != before.1[b].0);
                } else {
                    assert(ps[a] == before.1[a]);
                    assert(before.1[a].0 != before.1[b].0);
                }
            },
            None => {
                if b < before.1.len() {
                    assert(ps[a] == before.1[a] && ps[b] == before.1[b]);
                } else {
                    assert(ps[a] == before.1[a]);
                }
            },
        }
    }
    assert forall|a: int| 0 <= a < ps.len() implies {
        let p = #[trigger] ps[a];
        &&& p.2.dom().finite()
        &&& p.2.len() < p.1
        &&& forall|k: u32| p.2.contains_key(k) ==> k < p.1
    } by {
        match pos {
            Some(i) => {
                if a != i as int {
                    assert(ps[a] == before.1[a]);
                }
            },
            None => {
                if a < before.1.len() {
                    assert(ps[a] == before.1[a]);
                }
            },
        }
    }
}

/// An id the search does not find is on no reassembly.
proof fn lemma_find_none(ps: Seq<PendingView>, id: u16)
    requires
        find_id(ps, id) is None,
    ensures
        forall|i: int| 0 <= i < ps.len() ==> (#[trigger] ps[i]).0 != id,
    decreases ps.len(),
{
    if ps.len() > 0 {
        lemma_find_none(ps.drop_last(), id);
        assert forall|i: int| 0 <= i < ps.len() implies (#[trigger] ps[i]).0 != id by {
            if i < ps.len() - 1 {
                assert(ps[i] == ps.drop_last()[i]);
            }
        }
    }
}

/// The search finds the reassembly with the id it is given.
proof fn lemma_find_some(ps: Seq<PendingView>, id: u16)
    ensures
        find_id(ps, id) matches Some(i) ==> 0 <= i < ps.len() && ps[i].0 == id,
    decreases ps.len(),
{
    if ps.len() > 0 && ps.last().0 != id {
        lemma_find_some(ps.drop_last(), id);
    }
}

/// Keeping some of the reassemblies keeps them consistent.
proof fn lemma_filter_wf(r: ReassemblerView, keep: spec_fn(PendingView) -> bool)
    requires
        reassembly_wf(r),
    ensures
        reassembly_wf((r.0, r.1.filter(keep), total_bytes(r.1.filter(keep)) as usize)),
        total_bytes(r.1.filter(keep)) <= total_bytes(r.1),
    decreases r.1.len(),
{
    reveal(Seq::filter);
    let ps = r.1;
    let f = ps.filter(keep);
    ps.filter_lemma(keep);
    if ps.len() > 0 {
        let init = ps.drop_last();
        let r2 = (r.0, init, total_bytes(init) as usize);
        assert(reassembly_wf(r2)) by {
            assert forall|i: int, j: int| 0 <= i < j < init.len() implies (#[trigger] init[i]).0 != (#[trigger] init[j]).0 by {
                assert(init[i] == ps[i] && init[j] == ps[j]);
            }
            assert forall|i: int| 0 <= i < init.len() implies {
                let p = #[trigger] init[i];
                &&& p.2.dom().finite()
                &&& p.2.len() < p.1
                &&& forall|k: u32| p.2.contains_key(k) ==> k < p.1
            } by {
                assert(init[i] == ps[i]);
            }
        }
        lemma_filter_wf(r2, keep);
        let last = ps.last();
        let sub = init.filter(keep);
        assert(f == if keep(last) {
            sub.push(last)
        } else {
            sub
        });
        if keep(last) {
            assert(sub.push(last).drop_last() =~= sub);
        }
        assert(total_bytes(f) <= total_bytes(ps));
    }
    assert forall|i: int, j: int| 0 <= i < j < f.len() implies (#[trigger] f[i]).0 != (#[trigger] f[j]).0 by {
        lemma_filter_distinct(ps, keep, i, j);
    }
    assert forall|i: int| 0 <= i < f.len() implies {
        let p = #[trigger] f[i];
        &&& p.2.dom().finite()
        &&& p.2.len() < p.1
        &&& forall|k: u32| p.2.contains_key(k) ==> k < p.1
    } by {
        assert(ps.contains(f[i])) by {
            lemma_filter_from(ps, keep, i);
        }
    }
}

/// Every kept reassembly was one of those held before.
proof fn lemma_filter_from(ps: Seq<PendingView>, keep: spec_fn(PendingView) -> bool, i: int)
    requires
        0 <= i < ps.filter(keep).len(),
    ensures
        ps.contains(ps.filter(keep)[i]),
    decreases ps.len(),
{
    reveal(Seq::filter);
    if ps.len() > 0 {
        let sub = ps.drop_last().filter(keep);
        if i < sub.len() {
            lemma_filter_from(ps.drop_last(), keep, i);
            let j = choose|j: int| 0 <= j < ps.drop_last().len() && ps.drop_last()[j] == sub[i];
            assert(ps[j] == sub[i]);
        } else {
            assert(ps[ps.len() - 1] == ps.filter(keep)[i]);
        }
    }
}

/// Keeping some of a list whose ids are distinct keeps them distinct.
proof fn lemma_filter_distinct(ps: Seq<PendingView>, keep: spec_fn(PendingView) -> bool, i: int, j: int)
    requires
        forall|a: int, b: int| 0 <= a < b < ps.len() ==> (#[trigger] ps[a]).0 != (#[trigger] ps[b]).0,
        0 <= i < j < ps.filter(keep).len(),
    ensures
        ps.filter(keep)[i].0 != ps.filter(keep)[j].0,
    decreases ps.len(),
{
    reveal(Seq::filter);
    let init = ps.drop_last();
    let sub = init.filter(keep);
    assert forall|a: int, b: int| 0 <= a < b < init.len() implies (#[trigger] init[a]).0 != (#[trigger] init[b]).0 by {
        assert(init[a] == ps[a] && init[b] == ps[b]);
    }
    if j < sub.len() {
        lemma_filter_distinct(init, keep, i, j);
    } else {
        lemma_filter_from(init, keep, i);
        let a = choose|a: int| 0 <= a < init.len() && init[a] == sub[i];
        assert(ps[a] == sub[i]);
        assert(ps.filter(keep)[j] == ps[ps.len() - 1]);
    }
}

/// The views of fragments follow an insertion.
proof fn lemma_fragments_insert(m: Map<u32, Vec<u8>>, k: u32, v: Vec<u8>)
    ensures
        fragments_view(m.insert(k, v)) == fragments_view(m).insert(k, v@),
{
    assert(fragments_view(m.insert(k, v)) =~= fragments_view(m).insert(k, v@));
}

impl Reassembler {
    /// Where the reassembly for `id` sits.
    fn find(&self, id: u16) -> (r: Option<usize>)
        ensures
            r is Some == find_id(self@.1, id) is Some,
            r matches Some(i) ==> find_id(self@.1, id) == Some(i as int) && i < self@.1.len(),
    {
        let mut n: usize = self.pending.len();
        proof {
            assert(self@.1.take(n as int) =~= self@.1);
        }
        while n > 0
            invariant
                n <= self.pending@.len(),
                find_id(self@.1, id) == find_id(self@.1.take(n as int), id),
            decreases n,
        {
            proof {
                assert(self@.1.take(n as int).drop_last() =~= self@.1.take(n - 1));
                assert(self@.1.take(n as int).last() == self@.1[n - 1]);
            }
            if self.pending[n - 1].id == id {
                proof {
                    assert(self@.1[n - 1] == pending_view(self.pending@[n - 1]));
                }
                return Some(n - 1);
            }
            proof {
                assert(self@.1[n - 1] == pending_view(self.pending@[n - 1]));
            }
            n = n - 1;
        }
        None
    }

    /// Drops reassemblies that have been open for the timeout or longer, giving their
    /// memory back.
    pub fn expire(&mut self, now: u64)
        ensures
            ({
                let alive = |p: PendingView| elapsed(now, p.4) < old(self)@.0.3;
                final(self)@ == (old(self)@.0, old(self)@.1.filter(alive), total_bytes(old(self)@.1.filter(alive)) as usize)
            }),
    {
        proof {
            use_type_invariant(&*self);
        }
        let ghost before = self@;
        let timeout = self.limits.timeout;
        let ghost alive = |p: PendingView| elapsed(now, p.4) < timeout;
        let limits = self.limits;
        let mut old_state = Reassembler::new(limits);
        std::mem::swap(&mut old_state, self);
        let Reassembler { limits: _, pending: mut rest, buffered: mut buffered } = old_state;
        let mut kept: Vec<Pending> = Vec::new();
        let ghost mut done: nat = 0;
        proof {
            reveal(Seq::filter);
            assert(pendings_view(rest@) == before.1);
            assert(before.1.take(0) =~= Seq::<PendingView>::empty());
            assert(pendings_view(kept@) =~= Seq::<PendingView>::empty());
        }
        while rest.len() > 0
            invariant
                done <= before.1.len(),
                pendings_view(rest@) == before.1.skip(done as int),
                pendings_view(kept@) == before.1.take(done as int).filter(alive),
                buffered == total_bytes(pendings_view(kept@)) + total_bytes(pendings_view(rest@)),
                alive == (|p: PendingView| elapsed(now, p.4) < timeout),
            decreases rest@.len(),
        {
            let ghost rv = pendings_view(rest@);
            let p = rest.remove(0);
            let ghost pv = pending_view(p);
            proof {
                assert(rv[0] == pv);
                assert(rv.drop_first() =~= pendings_view(rest@));
                lemma_total_front(rv);
                assert(before.1.skip(done as int).drop_first() =~= before.1.skip(done as int + 1));
                assert(before.1.take(done as int + 1) =~= before.1.take(done as int).push(pv));
                before.1.take(done as int).lemma_filter_push(pv, alive);
            }
            let waited: u64 = if now >= p.first_seen {
                now - p.first_seen
            } else {
                0
            };
            if waited < timeout {
                let ghost kv = pendings_view(kept@);
                kept.push(p);
                proof {
                    assert(pendings_view(kept@) =~= kv.push(pv));
                    assert(kv.push(pv).drop_last() =~= kv);
                }
            } else {
                buffered = buffered - p.bytes;
            }
            proof {
                done = done + 1;
            }
        }
        proof {
            assert(before.1.take(done as int) =~= before.1);
            assert(pendings_view(rest@) =~= Seq::<PendingView>::empty());
            assert(before.1.filter(alive).len() <= before.1.len()) by {
                before.1.filter_lemma(alive);
            }
            lemma_filter_wf(before, alive);
        }
        *self = Reassembler { limits, pending: kept, buffered };
    }

    /// Feeds one fragment in. Returns the payload once the last one arrives.
    ///
    /// A frame with no split information is returned as-is: an unsplit payload is a
    /// one-fragment payload.
    pub fn push(&mut self, frame: Frame, now: u64) -> (res: Result<Option<Vec<u8>>, SplitError>)
        ensures
            ({
                let (st, out) = push_spec(old(self)@, frame@, now);
                &&& final(self)@ == st
                &&& match out {
                    Ok(None) => res matches Ok(None),
                    Ok(Some(b)) => res matches Ok(Some(v)) && v@ == b,
                    Err(e) => res == Err::<Option<Vec<u8>>, SplitError>(e),
                }
            }),
    {
        proof {
            use_type_invariant(&*self);
        }
        let split = match frame.split {
            None => return Ok(Some(frame.payload)),
            Some(sp) => sp,
        };
        if split.count == 0 || split.index >= split.count {
            return Err(SplitError::Inconsistent { count: split.count, index: split.index });
        }
        if split.count > self.limits.max_fragments {
            return Err(SplitError::TooManyFragments(split.count));
        }
        let pos = self.find(split.id);
        proof {
            lemma_find_some(self@.1, split.id);
        }
        if pos.is_none() && self.pending.len() >= self.limits.max_pending {
            return Err(SplitError::TooManyPending);
        }
        let len = frame.payload.len();
        if len > self.limits.max_payload - self.buffered {
            return Err(SplitError::PayloadTooLarge);
        }
        match pos {
            Some(i) => {
                proof {
                    assert(self@.1[i as int] == pending_view(self.pending@[i as int]));
                    assert(fragments_view(self.pending@[i as int].fragments@).dom() =~= self.pending@[i as int].fragments@.dom());
                }
                if self.pending[i].count != split.count {
                    return Err(SplitError::Inconsistent { count: split.count, index: split.index });
                }
                if self.pending[i].fragments.contains_key(&split.index) {
                    return Err(SplitError::DuplicateIndex(split.index));
                }
            },
            None => {},
        }
        let ghost before = self@;
        let limits = self.limits;
        let mut old_state = Reassembler::new(limits);
        std::mem::swap(&mut old_state, self);
        let Reassembler { limits: _, pending: mut pending, buffered: mut buffered } = old_state;
        proof {
            assert(pendings_view(pending@) == before.1);
        }
        let mut entry = match pos {
            Some(i) => pending.remove(i),
            None => Pending { id: split.id, count: split.count, fragments: BTreeMap::new(), bytes: 0, first_seen: now },
        };
        let ghost ev = pending_view(entry);
        proof {
            match pos {
                Some(i) => {
                    assert(ev == before.1[i as int]);
                    lemma_total_update(before.1, i as int, ev);
                },
                None => {
                    assert(fragments_view(entry.fragments@) =~= Map::<u32, Seq<u8>>::empty());
                },
            }
        }
        let ghost pv = frame.payload;
        let ghost old_frags = entry.fragments@;
        entry.fragments.insert(split.index, frame.payload);
        proof {
            lemma_fragments_insert(old_frags, split.index, pv);
            assert(fragments_view(old_frags).dom() =~= old_frags.dom());
            assert(fragments_view(entry.fragments@).dom() =~= entry.fragments@.dom());
        }
        entry.bytes = entry.bytes + len;
        buffered = buffered + len;
        let ghost grown = pending_view(entry);
        let n = entry.fragments.len();
        if n < split.count as usize {
            match pos {
                Some(i) => {
                    pending.insert(i, entry);
                    proof {
                        assert(pendings_view(pending@) =~= before.1.update(i as int, grown));
                    }
                },
                None => {
                    pending.push(entry);
                    proof {
                        assert(pendings_view(pending@) =~= before.1.push(grown));
                        assert(before.1.push(grown).drop_last() =~= before.1);
                    }
                },
            }
            proof {
                lemma_state_after_grow(before, pos, grown, split.id, len as nat);
            }
            *self = Reassembler { limits, pending, buffered };
            return Ok(None);
        }
        proof {
            match pos {
                Some(i) => {
                    assert(pendings_view(pending@) =~= before.1.remove(i as int));
                    lemma_total_remove(before.1, i as int);
                    lemma_total_update(before.1, i as int, grown);
                },
                None => {
                    assert(pendings_view(pending@) =~= before.1);
                },
            }
        }
        buffered = buffered - entry.bytes;
        proof {
            lemma_all_present(grown.2, split.count);
        }
        let mut out: Vec<u8> = Vec::new();
        let mut j: u32 = 0;
        while j < split.count
            invariant
                j <= split.count,
                grown == pending_view(entry),
                forall|k: u32| k < split.count ==> grown.2.contains_key(k),
                out@ == assemble(grown.2, j as nat),
            decreases split.count - j,
        {
            match entry.fragments.get(&j) {
                Some(v) => {
                    let mut m: usize = 0;
                    let ghost start_out = out@;
                    while m < v.len()
                        invariant
                            m <= v@.len(),
                            out@ == start_out + v@.take(m as int),
                        decreases v@.len() - m,
                    {
                        out.push(v[m]);
                        proof {
                            assert(v@.take(m + 1) =~= v@.take(m as int).push(v@[m as int]));
                        }
                        m = m + 1;
                    }
                    proof {
                        assert(v@.take(m as int) =~= v@);
                        assert(grown.2[j] == v@);
                    }
                },
                None => {
                    proof {
                        assert(grown.2.contains_key(j));
                    }
                },
            }
            j = j + 1;
        }
        *self = Reassembler { limits, pending, buffered };
        Ok(Some(out))
    }
}


/// Feeding frames to a reassembler one after another: the state at the end, and what
/// each push answered, in order.
pub open spec fn push_all(r: ReassemblerView, fs: Seq<FrameView>, now: u64) -> (
    ReassemblerView,
    Seq<Result<Option<Seq<u8>>, SplitError>>,
)
    decreases fs.len(),
{
    if fs.len() == 0 {
        (r, Seq::empty())
    } else {
        let (mid, outs) = push_all(r, fs.drop_last(), now);
        let (next, out) = push_spec(mid, fs.last(), now);
        (next, outs.push(out))
    }
}

/// The first `k` pieces of a payload, keyed by fragment index.
pub open spec fn first_pieces(payload: Seq<u8>, capacity: nat, k: nat) -> Map<u32, Seq<u8>>
    decreases k,
{
    if k == 0 {
        Map::empty()
    } else {
        first_pieces(payload, capacity, (k - 1) as nat).insert(
            (k - 1) as u32,
            piece(payload, capacity, (k - 1) as nat),
        )
    }
}

/// The reassembler after the first `k` fragments of a split payload, when `k` is short
/// of all of them.
pub open spec fn partway(
    r: ReassemblerView,
    payload: Seq<u8>,
    capacity: nat,
    id: u16,
    now: u64,
    k: nat,
) -> ReassemblerView {
    if k == 0 {
        r
    } else {
        let n = piece_count(payload.len(), capacity);
        (
            r.0,
            r.1.push((id, sat_u32(n), first_pieces(payload, capacity, k), (k * capacity) as usize, now)),
            (r.2 + k * capacity) as usize,
        )
    }
}

/// Where the pieces end: every piece but the last is full, and the last is not empty.
proof fn lemma_piece_count(len: nat, capacity: nat)
    requires
        0 < capacity < len,
    ensures
        piece_count(len, capacity) >= 2,
        (piece_count(len, capacity) - 1) * capacity < len,
        len <= piece_count(len, capacity) * capacity,
{
    let n = piece_count(len, capacity);
    let x = (len + capacity - 1) as int;
    let c = capacity as int;
    assert(n == x / c);
    vstd::arithmetic::div_mod::lemma_fundamental_div_mod(x, c);
    assert(0 <= x % c < c) by {
        vstd::arithmetic::div_mod::lemma_mod_bound(x, c);
    }
    assert(c * (x / c) == (x / c) * c) by (nonlinear_arith);
    assert(n * c <= x);
    assert(n * c > x - c);
    assert((n - 1) * c == n * c - c) by (nonlinear_arith);
    assert(n >= 2) by (nonlinear_arith)
        requires
            n * c > x - c,
            x == len + c - 1,
            len > c,
            c > 0,
    ;
}

/// What the first `k` pieces hold: exactly the indices below `k`, each its own piece.
proof fn lemma_first_pieces(payload: Seq<u8>, capacity: nat, k: nat)
    requires
        k <= 0x1_0000_0000,
    ensures
        first_pieces(payload, capacity, k).dom().finite(),
        first_pieces(payload, capacity, k).len() == k,
        forall|i: u32| #[trigger] first_pieces(payload, capacity, k).contains_key(i) <==> (i as nat) < k,
        forall|i: u32|
            (i as nat) < k ==> #[trigger] first_pieces(payload, capacity, k)[i] == piece(
                payload,
                capacity,
                i as nat,
            ),
    decreases k,
{
    if k > 0 {
        lemma_first_pieces(payload, capacity, (k - 1) as nat);
        let m = first_pieces(payload, capacity, (k - 1) as nat);
        assert(!m.contains_key((k - 1) as u32));
        assert(m.insert((k - 1) as u32, piece(payload, capacity, (k - 1) as nat)).dom() =~= m.dom().insert(
            (k - 1) as u32,
        ));
    }
}

/// The first `j` of the first `k` pieces, back to back, are the payload's first `j`
/// pieces' worth of bytes.
proof fn lemma_assemble_pieces(payload: Seq<u8>, capacity: nat, k: nat, j: nat)
    requires
        0 < capacity,
        j <= k <= 0x1_0000_0000,
        j == 0 || (j - 1) * capacity < payload.len(),
    ensures
        assemble(first_pieces(payload, capacity, k), j) == payload.subrange(
            0,
            if j * capacity < payload.len() {
                (j * capacity) as int
            } else {
                payload.len() as int
            },
        ),
    decreases j,
{
    lemma_first_pieces(payload, capacity, k);
    if j == 0 {
        assert(payload.subrange(0, 0) =~= Seq::<u8>::empty());
    } else {
        let c = capacity as int;
        let jj = j as int;
        assert((jj - 2) * c == (jj - 1) * c - c) by (nonlinear_arith);
        assert(jj * c == (jj - 1) * c + c) by (nonlinear_arith);
        assert((jj - 1) * c >= 0) by (nonlinear_arith)
            requires
                jj >= 1,
                c > 0,
        ;
        lemma_assemble_pieces(payload, capacity, k, (j - 1) as nat);
        let m = first_pieces(payload, capacity, k);
        assert(m[(j - 1) as u32] == piece(payload, capacity, (j - 1) as nat));
        let start = (jj - 1) * c;
        let end: int = if jj * c < payload.len() {
            jj * c
        } else {
            payload.len() as int
        };
        assert(payload.subrange(0, start) + payload.subrange(start, end) =~= payload.subrange(0, end));
    }
}

/// One more fragment of a split payload, short of the last: the reassembly grows by one
/// piece and nothing comes out.
proof fn lemma_push_piece(r: ReassemblerView, payload: Seq<u8>, capacity: nat, id: u16, now: u64, k: nat)
    requires
        0 < capacity < payload.len(),
        piece_count(payload.len(), capacity) <= r.0.1,
        find_id(r.1, id) is None,
        r.1.len() < r.0.2,
        r.2 + payload.len() <= r.0.0,
        k + 1 < piece_count(payload.len(), capacity),
    ensures
        push_spec(partway(r, payload, capacity, id, now, k), fragments_of(payload, capacity, id)[k as int], now)
            == (partway(r, payload, capacity, id, now, k + 1), Ok::<Option<Seq<u8>>, SplitError>(None)),
{
    let n = piece_count(payload.len(), capacity);
    lemma_piece_count(payload.len(), capacity);
    lemma_first_pieces(payload, capacity, k);
    lemma_first_pieces(payload, capacity, k + 1);
    let c = capacity as int;
    let kk = k as int;
    assert((kk + 1) * c == kk * c + c) by (nonlinear_arith);
    assert((kk + 1) * c <= (n - 1) * c) by (nonlinear_arith)
        requires
            kk + 1 <= n - 1,
            c > 0,
    ;
    assert(kk * c >= 0) by (nonlinear_arith)
        requires
            kk >= 0,
            c > 0,
    ;
    let f = fragments_of(payload, capacity, id)[k as int];
    assert(sat_u32(n) == n as u32);
    assert(sat_u32(k) == k as u32);
    assert(f.5 == Some(Split { count: n as u32, id, index: k as u32 }));
    assert(f.6 == piece(payload, capacity, k));
    assert(f.6.len() == capacity);
    let st = partway(r, payload, capacity, id, now, k);
    let entry = (id, n as u32, first_pieces(payload, capacity, k), (k * capacity) as usize, now);
    if k > 0 {
        assert(st.1.last() == entry);
        assert(find_id(st.1, id) == Some(r.1.len() as int));
        let grown = (
            id,
            n as u32,
            first_pieces(payload, capacity, k + 1),
            ((k + 1) * capacity) as usize,
            now,
        );
        assert(st.1.update(r.1.len() as int, grown) =~= r.1.push(grown));
    } else {
        assert(first_pieces(payload, capacity, 0) == Map::<u32, Seq<u8>>::empty());
    }
}

/// The last fragment of a split payload: the payload comes out whole and the
/// reassembler is back where it started.
proof fn lemma_push_last(r: ReassemblerView, payload: Seq<u8>, capacity: nat, id: u16, now: u64)
    requires
        0 < capacity < payload.len(),
        piece_count(payload.len(), capacity) <= r.0.1,
        find_id(r.1, id) is None,
        r.1.len() < r.0.2,
        r.2 + payload.len() <= r.0.0,
    ensures
        ({
            let n = piece_count(payload.len(), capacity);
            push_spec(
                partway(r, payload, capacity, id, now, (n - 1) as nat),
                fragments_of(payload, capacity, id)[n - 1],
                now,
            ) == (r, Ok::<Option<Seq<u8>>, SplitError>(Some(payload)))
        }),
{
    let n = piece_count(payload.len(), capacity);
    let k = (n - 1) as nat;
    lemma_piece_count(payload.len(), capacity);
    lemma_first_pieces(payload, capacity, k);
    lemma_first_pieces(payload, capacity, n);
    let c = capacity as int;
    let kk = k as int;
    assert((kk + 1) * c == kk * c + c) by (nonlinear_arith);
    assert(kk * c >= 0) by (nonlinear_arith)
        requires
            kk >= 0,
            c > 0,
    ;
    let f = fragments_of(payload, capacity, id)[k as int];
    assert(sat_u32(n) == n as u32);
    assert(sat_u32(k) == k as u32);
    assert(f.5 == Some(Split { count: n as u32, id, index: k as u32 }));
    assert(f.6 == piece(payload, capacity, k));
    assert(f.6.len() == payload.len() - k * capacity);
    let st = partway(r, payload, capacity, id, now, k);
    let entry = (id, n as u32, first_pieces(payload, capacity, k), (k * capacity) as usize, now);
    assert(st.1.last() == entry);
    assert(find_id(st.1, id) == Some(r.1.len() as int));
    assert(st.1.remove(r.1.len() as int) =~= r.1);
    assert(first_pieces(payload, capacity, n) == first_pieces(payload, capacity, k).insert(
        k as u32,
        f.6,
    ));
    lemma_assemble_pieces(payload, capacity, n, n);
    assert(payload.subrange(0, payload.len() as int) =~= payload);
}

/// The reassembler after the first `k` fragments, and what it answered to each.
proof fn lemma_push_prefix(r: ReassemblerView, payload: Seq<u8>, capacity: nat, id: u16, now: u64, k: nat)
    requires
        0 < capacity < payload.len(),
        piece_count(payload.len(), capacity) <= r.0.1,
        find_id(r.1, id) is None,
        r.1.len() < r.0.2,
        r.2 + payload.len() <= r.0.0,
        k < piece_count(payload.len(), capacity),
    ensures
        push_all(r, fragments_of(payload, capacity, id).take(k as int), now) == (
            partway(r, payload, capacity, id, now, k),
            Seq::new(k, |i: int| Ok::<Option<Seq<u8>>, SplitError>(None)),
        ),
    decreases k,
{
    let fs = fragments_of(payload, capacity, id);
    if k == 0 {
        assert(fs.take(0) =~= Seq::<FrameView>::empty());
        assert(Seq::new(0, |i: int| Ok::<Option<Seq<u8>>, SplitError>(None)) =~= Seq::empty());
    } else {
        lemma_push_prefix(r, payload, capacity, id, now, (k - 1) as nat);
        assert(fs.take(k as int).drop_last() =~= fs.take(k - 1));
        assert(fs.take(k as int).last() == fs[k - 1]);
        lemma_push_piece(r, payload, capacity, id, now, (k - 1) as nat);
        assert(Seq::new((k - 1) as nat, |i: int| Ok::<Option<Seq<u8>>, SplitError>(None)).push(Ok(None))
            =~= Seq::new(k, |i: int| Ok::<Option<Seq<u8>>, SplitError>(None)));
    }
}

/// A payload that was split comes back whole.
///
/// Feeding a reassembler the fragments that splitting `payload` under a split id gives,
/// in order, answers nothing until the last fragment, then answers the payload, and
/// leaves the reassembler as it was. This holds whenever the reassembler is not already
/// collecting that split id and has room for one more reassembly, the fragment count
/// and the payload's bytes.
pub proof fn lemma_split_reassembles(r: ReassemblerView, payload: Seq<u8>, capacity: nat, id: u16, now: u64)
    requires
        0 < capacity < payload.len(),
        piece_count(payload.len(), capacity) <= r.0.1,
        find_id(r.1, id) is None,
        r.1.len() < r.0.2,
        r.2 + payload.len() <= r.0.0,
    ensures
        ({
            let n = piece_count(payload.len(), capacity);
            let (end, answers) = push_all(r, fragments_of(payload, capacity, id), now);
            &&& end == r
            &&& answers.len() == n
            &&& forall|i: int| 0 <= i < n - 1 ==> answers[i] == Ok::<Option<Seq<u8>>, SplitError>(None)
            &&& answers[n - 1] == Ok::<Option<Seq<u8>>, SplitError>(Some(payload))
        }),
{
    let n = piece_count(payload.len(), capacity);
    let fs = fragments_of(payload, capacity, id);
    lemma_piece_count(payload.len(), capacity);
    lemma_push_prefix(r, payload, capacity, id, now, (n - 1) as nat);
    assert(fs.take(n as int) =~= fs);
    assert(fs.drop_last() =~= fs.take(n - 1));
    lemma_push_last(r, payload, capacity, id, now);
}

/// Splitting cuts a payload into as many pieces as it takes to hold it at `capacity`
/// bytes each, one fragment per piece numbered from zero, and the pieces put back
/// together in index order are the payload.
pub proof fn lemma_pieces_join(payload: Seq<u8>, capacity: nat, id: u16)
    requires
        0 < capacity < payload.len(),
        piece_count(payload.len(), capacity) <= 0x1_0000_0000,
    ensures
        ({
            let n = piece_count(payload.len(), capacity);
            let fs = fragments_of(payload, capacity, id);
            &&& fs.len() == n
            &&& (n - 1) * capacity < payload.len() <= n * capacity
            &&& forall|i: int| 0 <= i < n ==> (#[trigger] fs[i]).5 == Some(
                Split { count: sat_u32(n), id, index: sat_u32(i as nat) },
            ) && fs[i].6 == piece(payload, capacity, i as nat) && fs[i].0 == Reliability::ReliableOrdered
                && 0 < fs[i].6.len() <= capacity
            &&& assemble(first_pieces(payload, capacity, n), n) == payload
        }),
{
    let n = piece_count(payload.len(), capacity);
    lemma_piece_count(payload.len(), capacity);
    lemma_pieces_fit(payload, capacity, id);
    assert forall|i: int| 0 <= i < n implies 0 < (#[trigger] fragments_of(payload, capacity, id)[i]).6.len() by {
        lemma_piece_len(payload, capacity, i as nat);
    }
    lemma_assemble_pieces(payload, capacity, n, n);
    assert(payload.subrange(0, payload.len() as int) =~= payload);
}

/// Whether `order` puts the indices below `n` in some order, each once.
pub open spec fn arrangement(order: Seq<nat>, n: nat) -> bool {
    &&& order.len() == n
    &&& forall|i: int, j: int| 0 <= i < j < n ==> #[trigger] order[i] != #[trigger] order[j]
    &&& forall|i: int| 0 <= i < n ==> #[trigger] order[i] < n
    &&& forall|x: nat| x < n ==> #[trigger] order.contains(x)
}

/// The pieces a reassembly holds after the first `k` fragments in `order`.
pub open spec fn pieces_in(payload: Seq<u8>, capacity: nat, order: Seq<nat>, k: nat) -> Map<u32, Seq<u8>>
    decreases k,
{
    if k == 0 {
        Map::empty()
    } else {
        pieces_in(payload, capacity, order, (k - 1) as nat).insert(
            order[k - 1] as u32,
            piece(payload, capacity, order[k - 1]),
        )
    }
}

/// The bytes of the first `k` fragments in `order`.
pub open spec fn bytes_in(payload: Seq<u8>, capacity: nat, order: Seq<nat>, k: nat) -> nat
    decreases k,
{
    if k == 0 {
        0
    } else {
        bytes_in(payload, capacity, order, (k - 1) as nat) + piece(payload, capacity, order[k - 1]).len()
    }
}

/// The fragments of a split payload, in `order`.
pub open spec fn fragments_in(payload: Seq<u8>, capacity: nat, id: u16, order: Seq<nat>) -> Seq<FrameView> {
    Seq::new(order.len(), |k: int| fragments_of(payload, capacity, id)[order[k] as int])
}

/// The reassembler after the first `k` fragments in `order`, when `k` is short of all
/// of them.
pub open spec fn partway_in(
    r: ReassemblerView,
    payload: Seq<u8>,
    capacity: nat,
    id: u16,
    now: u64,
    order: Seq<nat>,
    k: nat,
) -> ReassemblerView {
    if k == 0 {
        r
    } else {
        let n = piece_count(payload.len(), capacity);
        let b = bytes_in(payload, capacity, order, k);
        (r.0, r.1.push((id, sat_u32(n), pieces_in(payload, capacity, order, k), b as usize, now)), (r.2 + b) as usize)
    }
}

/// How long each piece is: full but for the last, which holds the rest.
proof fn lemma_piece_len(payload: Seq<u8>, capacity: nat, i: nat)
    requires
        0 < capacity < payload.len(),
        i < piece_count(payload.len(), capacity),
    ensures
        piece(payload, capacity, i).len() == if i + 1 < piece_count(payload.len(), capacity) {
            capacity as int
        } else {
            payload.len() - (piece_count(payload.len(), capacity) - 1) * capacity
        },
{
    let n = piece_count(payload.len(), capacity);
    lemma_piece_count(payload.len(), capacity);
    let c = capacity as int;
    let ii = i as int;
    assert((ii + 1) * c == ii * c + c) by (nonlinear_arith);
    assert(ii * c >= 0) by (nonlinear_arith)
        requires
            ii >= 0,
            c > 0,
    ;
    if i + 1 < n {
        assert((ii + 1) * c <= (n - 1) * c) by (nonlinear_arith)
            requires
                ii + 1 <= n - 1,
                c > 0,
        ;
    } else {
        assert(ii == n - 1);
    }
}

/// What the first `k` fragments in `order` leave held: their indices, each its own
/// piece, and their bytes, which never pass the payload's.
proof fn lemma_pieces_in(payload: Seq<u8>, capacity: nat, order: Seq<nat>, n: nat, k: nat)
    requires
        0 < capacity < payload.len(),
        n == piece_count(payload.len(), capacity),
        n <= u32::MAX,
        arrangement(order, n),
        k <= n,
    ensures
        pieces_in(payload, capacity, order, k).dom().finite(),
        pieces_in(payload, capacity, order, k).len() == k,
        forall|x: u32| #[trigger] pieces_in(payload, capacity, order, k).contains_key(x) <==> exists|j: int|
            0 <= j < k && order[j] == x as nat,
        forall|j: int| 0 <= j < k ==> #[trigger] pieces_in(payload, capacity, order, k)[order[j] as u32] == piece(
            payload,
            capacity,
            order[j],
        ),
        bytes_in(payload, capacity, order, k) <= payload.len(),
        k < n ==> bytes_in(payload, capacity, order, k) + piece(payload, capacity, order[k as int]).len()
            <= payload.len(),
        (exists|j: int| 0 <= j < k && order[j] == n - 1) ==> bytes_in(payload, capacity, order, k) == (k - 1)
            * capacity + payload.len() - (n - 1) * capacity,
        !(exists|j: int| 0 <= j < k && order[j] == n - 1) ==> bytes_in(payload, capacity, order, k) == k * capacity,
    decreases k,
{
    lemma_piece_count(payload.len(), capacity);
    let c = capacity as int;
    let last = payload.len() - (n - 1) * c;
    if k > 0 {
        let k1 = (k - 1) as nat;
        lemma_pieces_in(payload, capacity, order, n, k1);
        let m = pieces_in(payload, capacity, order, k1);
        let x = order[k1 as int];
        assert(!m.contains_key(x as u32)) by {
            if m.contains_key(x as u32) {
                let j = choose|j: int| 0 <= j < k1 && order[j] == (x as u32) as nat;
                assert(order[j] != order[k1 as int]);
            }
        }
        assert(pieces_in(payload, capacity, order, k).dom() == m.dom().insert(x as u32));
        assert forall|y: u32| #[trigger] pieces_in(payload, capacity, order, k).contains_key(y) <==> exists|j: int|
            0 <= j < k && order[j] == y as nat by {
            if pieces_in(payload, capacity, order, k).contains_key(y) && y != x as u32 {
                let j = choose|j: int| 0 <= j < k1 && order[j] == y as nat;
                assert(0 <= j < k);
            }
            if exists|j: int| 0 <= j < k && order[j] == y as nat {
                let j = choose|j: int| 0 <= j < k && order[j] == y as nat;
                if j < k1 {
                    assert(m.contains_key(y));
                }
            }
        }
        assert forall|j: int| 0 <= j < k implies #[trigger] pieces_in(payload, capacity, order, k)[order[j] as u32]
            == piece(payload, capacity, order[j]) by {
            if j < k1 {
                assert(order[j] != x);
            }
        }
        lemma_piece_len(payload, capacity, x);
        let had = exists|j: int| 0 <= j < k1 && order[j] == n - 1;
        if x == n - 1 {
            assert(!had) by {
                if had {
                    let j = choose|j: int| 0 <= j < k1 && order[j] == n - 1;
                    assert(order[j] != order[k1 as int]);
                }
            }
            assert(k1 * c + last == (k - 1) * c + last);
        } else {
            if had {
                let j = choose|j: int| 0 <= j < k1 && order[j] == n - 1;
                assert(exists|j2: int| 0 <= j2 < k && order[j2] == n - 1);
                assert((k1 - 1) * c + c == (k - 1) * c) by (nonlinear_arith)
                    requires
                        k1 == k - 1,
                ;
            } else {
                assert(!(exists|j2: int| 0 <= j2 < k && order[j2] == n - 1)) by {
                    if exists|j2: int| 0 <= j2 < k && order[j2] == n - 1 {
                        let j2 = choose|j2: int| 0 <= j2 < k && order[j2] == n - 1;
                        assert(j2 < k1 || order[j2] == x);
                    }
                }
                assert(k1 * c + c == k * c) by (nonlinear_arith)
                    requires
                        k1 == k - 1,
                ;
            }
        }
    } else {
        assert(pieces_in(payload, capacity, order, 0).dom() =~= Set::<u32>::empty());
    }
    // The bound: up to `k` pieces, at most one of them the last.
    let b = bytes_in(payload, capacity, order, k);
    if exists|j: int| 0 <= j < k && order[j] == n - 1 {
        assert((k - 1) * c <= (n - 1) * c) by (nonlinear_arith)
            requires
                k <= n,
                k >= 1,
                c > 0,
        ;
    } else {
        assert(k <= n - 1) by {
            if k == n {
                assert(order.contains((n - 1) as nat));
                let j = choose|j: int| 0 <= j < n && order[j] == n - 1;
                assert(0 <= j < k);
            }
        }
        assert(k * c <= (n - 1) * c) by (nonlinear_arith)
            requires
                k <= n - 1,
                c > 0,
        ;
    }
    if k < n {
        let x = order[k as int];
        lemma_piece_len(payload, capacity, x);
        if exists|j: int| 0 <= j < k && order[j] == n - 1 {
            let j = choose|j: int| 0 <= j < k && order[j] == n - 1;
            assert(x != n - 1) by {
                assert(order[j] != order[k as int]);
            }
            assert((k - 1) * c + c == k * c) by (nonlinear_arith);
            assert(k * c <= (n - 1) * c) by (nonlinear_arith)
                requires
                    k <= n - 1,
                    c > 0,
            ;
        } else {
            if x == n - 1 {
                assert(k * c <= (n - 1) * c) by (nonlinear_arith)
                    requires
                        k <= n - 1,
                        c > 0,
                ;
            } else {
                assert(k + 1 <= n - 1) by {
                    if k + 1 == n {
                        assert(order.contains((n - 1) as nat));
                        let j = choose|j: int| 0 <= j < n && order[j] == n - 1;
                        assert(j < k || j == k);
                    }
                }
                assert((k + 1) * c <= (n - 1) * c) by (nonlinear_arith)
                    requires
                        k + 1 <= n - 1,
                        c > 0,
                ;
                assert(k * c + c == (k + 1) * c) by (nonlinear_arith);
            }
        }
    }
}

/// One fragment in `order`: short of the last, the reassembly grows by its piece and
/// nothing comes out; the last one gives the payload back and leaves the reassembler as
/// it was before the first.
proof fn lemma_push_in(
    r: ReassemblerView,
    payload: Seq<u8>,
    capacity: nat,
    id: u16,
    now: u64,
    order: Seq<nat>,
    k: nat,
)
    requires
        0 < capacity < payload.len(),
        piece_count(payload.len(), capacity) <= r.0.1,
        find_id(r.1, id) is None,
        r.1.len() < r.0.2,
        r.2 + payload.len() <= r.0.0,
        arrangement(order, piece_count(payload.len(), capacity)),
        k < piece_count(payload.len(), capacity),
    ensures
        push_spec(partway_in(r, payload, capacity, id, now, order, k), fragments_in(payload, capacity, id, order)[k as int], now)
            == if k + 1 < piece_count(payload.len(), capacity) {
            (partway_in(r, payload, capacity, id, now, order, k + 1), Ok::<Option<Seq<u8>>, SplitError>(None))
        } else {
            (r, Ok::<Option<Seq<u8>>, SplitError>(Some(payload)))
        },
{
    let n = piece_count(payload.len(), capacity);
    lemma_piece_count(payload.len(), capacity);
    lemma_pieces_in(payload, capacity, order, n, k);
    lemma_pieces_in(payload, capacity, order, n, k + 1);
    let x = order[k as int];
    let f = fragments_in(payload, capacity, id, order)[k as int];
    assert(f == fragments_of(payload, capacity, id)[x as int]);
    assert(sat_u32(n) == n as u32);
    assert(sat_u32(x) == x as u32);
    assert(f.5 == Some(Split { count: n as u32, id, index: x as u32 }));
    assert(f.6 == piece(payload, capacity, x));
    let st = partway_in(r, payload, capacity, id, now, order, k);
    let b = bytes_in(payload, capacity, order, k);
    let b1 = bytes_in(payload, capacity, order, k + 1);
    assert(b1 == b + f.6.len());
    if k > 0 {
        let entry = (id, n as u32, pieces_in(payload, capacity, order, k), b as usize, now);
        assert(st.1.last() == entry);
        assert(find_id(st.1, id) == Some(r.1.len() as int));
        assert(!pieces_in(payload, capacity, order, k).contains_key(x as u32)) by {
            if pieces_in(payload, capacity, order, k).contains_key(x as u32) {
                let j = choose|j: int| 0 <= j < k && order[j] == (x as u32) as nat;
                assert(order[j] != order[k as int]);
            }
        }
        let grown = (id, n as u32, pieces_in(payload, capacity, order, k + 1), b1 as usize, now);
        assert(st.1.update(r.1.len() as int, grown) =~= r.1.push(grown));
        assert(st.1.remove(r.1.len() as int) =~= r.1);
    } else {
        assert(pieces_in(payload, capacity, order, 0) == Map::<u32, Seq<u8>>::empty());
    }
    if k + 1 == n {
        lemma_first_pieces(payload, capacity, n);
        let m = pieces_in(payload, capacity, order, n);
        let fp = first_pieces(payload, capacity, n);
        assert forall|y: u32| m.contains_key(y) <==> fp.contains_key(y) by {
            if (y as nat) < n {
                assert(order.contains(y as nat));
                let j = choose|j: int| 0 <= j < order.len() && order[j] == y as nat;
                assert(0 <= j < n && order[j] == y as nat);
            }
            if m.contains_key(y) {
                let j = choose|j: int| 0 <= j < n && order[j] == y as nat;
                assert(order[j] < n);
            }
        }
        assert forall|y: u32| m.contains_key(y) implies m[y] == fp[y] by {
            let j = choose|j: int| 0 <= j < n && order[j] == y as nat;
            assert(m[order[j] as u32] == piece(payload, capacity, order[j]));
        }
        assert(m =~= fp);
        lemma_assemble_pieces(payload, capacity, n, n);
        assert(payload.subrange(0, payload.len() as int) =~= payload);
    }
}

/// The first `k` fragments in `order`, short of the last, leave the reassembly partway
/// and answer nothing.
proof fn lemma_push_prefix_in(
    r: ReassemblerView,
    payload: Seq<u8>,
    capacity: nat,
    id: u16,
    now: u64,
    order: Seq<nat>,
    k: nat,
)
    requires
        0 < capacity < payload.len(),
        piece_count(payload.len(), capacity) <= r.0.1,
        find_id(r.1, id) is None,
        r.1.len() < r.0.2,
        r.2 + payload.len() <= r.0.0,
        arrangement(order, piece_count(payload.len(), capacity)),
        k < piece_count(payload.len(), capacity),
    ensures
        push_all(r, fragments_in(payload, capacity, id, order).take(k as int), now) == (
            partway_in(r, payload, capacity, id, now, order, k),
            Seq::new(k, |i: int| Ok::<Option<Seq<u8>>, SplitError>(None)),
        ),
    decreases k,
{
    let fs = fragments_in(payload, capacity, id, order);
    if k == 0 {
        assert(fs.take(0) =~= Seq::<FrameView>::empty());
        assert(Seq::new(0, |i: int| Ok::<Option<Seq<u8>>, SplitError>(None)) =~= Seq::<
            Result<Option<Seq<u8>>, SplitError>,
        >::empty());
    } else {
        let k1 = (k - 1) as nat;
        lemma_push_prefix_in(r, payload, capacity, id, now, order, k1);
        lemma_push_in(r, payload, capacity, id, now, order, k1);
        assert(fs.take(k as int).drop_last() =~= fs.take(k1 as int));
        assert(fs.take(k as int).last() == fs[k1 as int]);
        assert(Seq::new(k1, |i: int| Ok::<Option<Seq<u8>>, SplitError>(None)).push(Ok(None)) =~= Seq::new(
            k,
            |i: int| Ok::<Option<Seq<u8>>, SplitError>(None),
        ));
    }
}

/// A payload that was split comes back whole whatever order its fragments arrive in.
///
/// Feeding a reassembler every fragment that splitting `payload` under a split id
/// gives, each once and in any order, answers nothing until the last of them, then
/// answers the payload, and leaves the reassembler as it was. This holds whenever the
/// reassembler is not already collecting that split id and has room for one more
/// reassembly, the fragment count and the payload's bytes.
pub proof fn lemma_split_reassembles_in_any_order(
    r: ReassemblerView,
    payload: Seq<u8>,
    capacity: nat,
    id: u16,
    now: u64,
    order: Seq<nat>,
)
    requires
        0 < capacity < payload.len(),
        piece_count(payload.len(), capacity) <= r.0.1,
        find_id(r.1, id) is None,
        r.1.len() < r.0.2,
        r.2 + payload.len() <= r.0.0,
        arrangement(order, piece_count(payload.len(), capacity)),
    ensures
        ({
            let n = piece_count(payload.len(), capacity);
            let (end, answers) = push_all(r, fragments_in(payload, capacity, id, order), now);
            &&& end == r
            &&& answers.len() == n
            &&& forall|i: int| 0 <= i < n - 1 ==> answers[i] == Ok::<Option<Seq<u8>>, SplitError>(None)
            &&& answers[n - 1] == Ok::<Option<Seq<u8>>, SplitError>(Some(payload))
        }),
{
    let n = piece_count(payload.len(), capacity);
    lemma_piece_count(payload.len(), capacity);
    let fs = fragments_in(payload, capacity, id, order);
    let k = (n - 1) as nat;
    lemma_push_prefix_in(r, payload, capacity, id, now, order, k);
    lemma_push_in(r, payload, capacity, id, now, order, k);
    assert(fs.drop_last() =~= fs.take(k as int));
    assert(fs.last() == fs[k as int]);
}

/// Every fragment of a split payload holds at most `capacity` bytes.
pub proof fn lemma_pieces_fit(payload: Seq<u8>, capacity: nat, id: u16)
    requires
        0 < capacity < payload.len(),
    ensures
        forall|i: int|
            0 <= i < fragments_of(payload, capacity, id).len() ==> (#[trigger] fragments_of(
                payload,
                capacity,
                id,
            )[i]).6.len() <= capacity,
{
    let n = piece_count(payload.len(), capacity);
    lemma_piece_count(payload.len(), capacity);
    assert forall|i: int| 0 <= i < n implies (#[trigger] fragments_of(payload, capacity, id)[i]).6.len()
        <= capacity by {
        let c = capacity as int;
        assert(i * c <= (n - 1) * c) by (nonlinear_arith)
            requires
                0 <= i <= n - 1,
                c > 0,
        ;
        assert((i + 1) * c == i * c + c) by (nonlinear_arith);
        assert(i * c >= 0) by (nonlinear_arith)
            requires
                i >= 0,
                c > 0,
        ;
        assert(fragments_of(payload, capacity, id)[i].6 == piece(payload, capacity, i as nat));
    }
}

} // verus!
