//! Delivering reliable-ordered payloads in order, exactly once.
//!
//! Both structures here bound what a peer can make us hold. A peer that sends order
//! index 5000 and never sends 0 must not buy unbounded buffering with one frame, and a
//! peer that replays old frames must not have them delivered twice.
use std::collections::BTreeMap;
use vstd::prelude::*;

verus! {

broadcast use vstd::laws_cmp::group_laws_cmp;

/// A peer sent something too far outside the window to be worth holding.
#[derive(Debug, Clone, Copy, PartialEq, Eq, Structural)]
pub struct OutOfWindow {
    /// The index the peer sent.
    pub index: u32,
    /// The index we were waiting for.
    pub expected: u32,
}

/// `e + 1`, wrapping at the top of `u32`.
pub open spec fn next_index(e: u32) -> u32 {
    if e == u32::MAX {
        0
    } else {
        (e + 1) as u32
    }
}

/// What draining the run that starts at `e` out of `m` gives: the payloads in index
/// order, what is left held, and the index waited for next.
pub open spec fn drain(m: Map<u32, Vec<u8>>, e: u32) -> (Seq<Vec<u8>>, Map<u32, Vec<u8>>, u32)
    decreases m.dom().len(),
    when m.dom().finite()
{
    if m.contains_key(e) {
        let rest = drain(m.remove(e), next_index(e));
        (seq![m[e]] + rest.0, rest.1, rest.2)
    } else {
        (Seq::empty(), m, e)
    }
}

/// The payloads held, by index, as byte sequences.
pub open spec fn views_of(m: Map<u32, Vec<u8>>) -> Map<u32, Seq<u8>> {
    m.map_values(|v: Vec<u8>| v@)
}

/// [`drain`] over payloads as byte sequences.
pub open spec fn drain_views(m: Map<u32, Seq<u8>>, e: u32) -> (Seq<Seq<u8>>, Map<u32, Seq<u8>>, u32)
    decreases m.dom().len(),
    when m.dom().finite()
{
    if m.contains_key(e) {
        let rest = drain_views(m.remove(e), next_index(e));
        (seq![m[e]] + rest.0, rest.1, rest.2)
    } else {
        (Seq::empty(), m, e)
    }
}

/// Draining a buffer and then reading its payloads as bytes is draining the bytes.
pub proof fn lemma_drain_views(m: Map<u32, Vec<u8>>, e: u32)
    requires
        m.dom().finite(),
    ensures
        drain(m, e).0.map_values(|v: Vec<u8>| v@) == drain_views(views_of(m), e).0,
        views_of(drain(m, e).1) == drain_views(views_of(m), e).1,
        drain(m, e).2 == drain_views(views_of(m), e).2,
    decreases m.dom().len(),
{
    assert(views_of(m).dom() == m.dom());
    if m.contains_key(e) {
        let r = m.remove(e);
        assert(r.dom().len() < m.dom().len()) by {
            assert(r.dom() == m.dom().remove(e));
        }
        lemma_drain_views(r, next_index(e));
        assert(views_of(r) =~= views_of(m).remove(e));
        let d = drain(r, next_index(e));
        assert((seq![m[e]] + d.0).map_values(|v: Vec<u8>| v@) =~= seq![m[e]@] + d.0.map_values(
            |v: Vec<u8>| v@,
        ));
    }
}

/// A reorder buffer as the contracts see it: the index waited for, the payloads held by
/// index, and the window.
pub type OrderView = (u32, Map<u32, Vec<u8>>, u32);

/// Buffers ordered payloads until the gaps ahead of them are filled.
#[derive(Debug)]
pub struct OrderBuffer {
    expected: u32,
    buffered: BTreeMap<u32, Vec<u8>>,
    window: u32,
}

impl View for OrderBuffer {
    type V = OrderView;

    closed spec fn view(&self) -> OrderView {
        (self.expected, self.buffered@, self.window)
    }
}

impl OrderBuffer {
    #[verifier::type_invariant]
    closed spec fn well_formed(self) -> bool {
        self.buffered@.dom().finite()
    }

    /// Holds at most `window` payloads ahead of the one it is waiting for.
    ///
    /// The window doubles as the wrap guard: order indices are 24-bit, so anything that
    /// far ahead is a peer probing rather than a counter rolling over.
    pub fn new(window: u32) -> (o: Self)
        ensures
            o@ == (0u32, Map::<u32, Vec<u8>>::empty(), window),
    {
        OrderBuffer { expected: 0, buffered: BTreeMap::new(), window }
    }

    /// Payloads held out of order.
    pub fn buffered(&self) -> (n: usize)
        ensures
            n == self@.1.len(),
    {
        proof {
            use_type_invariant(self);
        }
        self.buffered.len()
    }

    /// The index still being waited for.
    pub fn expected(&self) -> (e: u32)
        ensures
            e == self@.0,
    {
        self.expected
    }

    /// Takes one payload and returns everything that became deliverable.
    ///
    /// A payload already delivered yields nothing rather than an error: a duplicate is
    /// what retransmission looks like from here. One at or beyond `window` past the
    /// index waited for is refused and nothing is held.
    pub fn push(&mut self, index: u32, payload: Vec<u8>) -> (res: Result<Vec<Vec<u8>>, OutOfWindow>)
        ensures
            final(self)@.2 == old(self)@.2,
            old(self)@.1.dom().finite(),
            final(self)@.1.dom().finite(),
            index < old(self)@.0 ==> (res matches Ok(v) && v@.len() == 0 && final(self)@ == old(self)@),
            index >= old(self)@.0 && index - old(self)@.0 >= old(self)@.2 ==> res == Err::<Vec<Vec<u8>>, OutOfWindow>(
                OutOfWindow { index, expected: old(self)@.0 },
            ) && final(self)@ == old(self)@,
            index >= old(self)@.0 && index - old(self)@.0 < old(self)@.2 ==> {
                let d = drain(old(self)@.1.insert(index, payload), old(self)@.0);
                &&& res matches Ok(v)
                &&& v@ == d.0
                &&& final(self)@ == (d.2, d.1, old(self)@.2)
            },
    {
        proof {
            use_type_invariant(&*self);
        }
        if index < self.expected {
            return Ok(Vec::new());
        }
        if index - self.expected >= self.window {
            return Err(OutOfWindow { index, expected: self.expected });
        }
        let ghost start = self@;
        let mut buffered = BTreeMap::new();
        std::mem::swap(&mut buffered, &mut self.buffered);
        buffered.insert(index, payload);
        let ghost whole = drain(buffered@, start.0);
        let mut expected = self.expected;
        let mut ready: Vec<Vec<u8>> = Vec::new();
        loop
            invariant
                buffered@.dom().finite(),
                whole == (ready@ + drain(buffered@, expected).0, drain(buffered@, expected).1, drain(
                    buffered@,
                    expected,
                ).2),
            ensures
                buffered@.dom().finite(),
                whole == (ready@, buffered@, expected),
            decreases buffered@.dom().len(),
        {
            match buffered.remove(&expected) {
                Some(next) => {
                    proof {
                        assert(ready@.push(next) + drain(buffered@, next_index(expected)).0 =~= ready@ + (
                        seq![next] + drain(buffered@, next_index(expected)).0));
                    }
                    ready.push(next);
                    expected = expected.wrapping_add(1);
                },
                None => {
                    proof {
                        assert(ready@ + Seq::<Vec<u8>>::empty() =~= ready@);
                    }
                    break;
                },
            }
        }
        self.expected = expected;
        self.buffered = buffered;
        Ok(ready)
    }
}

/// The largest entry of a sequence, or zero for none.
pub open spec fn seq_max(s: Seq<u32>) -> u32
    decreases s.len(),
{
    if s.len() == 0 {
        0
    } else {
        let m = seq_max(s.drop_last());
        if s.last() > m {
            s.last()
        } else {
            m
        }
    }
}

/// `a - b`, stopping at zero.
pub open spec fn saturating_sub(a: u32, b: u32) -> u32 {
    if a >= b {
        (a - b) as u32
    } else {
        0
    }
}

/// A duplicate filter as the contracts see it: the indices remembered, in the order they
/// came, the floor below which everything reads as seen, and the window.
pub type DedupView = (Seq<u32>, u32, u32);

/// What accepting `index` does to a filter: a new index is remembered, and the floor
/// rises to `window` below the highest index, forgetting what falls under it.
pub open spec fn accept_spec(d: DedupView, index: u32) -> DedupView {
    let seen = d.0.push(index);
    let floor = saturating_sub(seq_max(seen), d.2);
    if floor > d.1 {
        (seen.filter(|x: u32| x >= floor), floor, d.2)
    } else {
        (seen, d.1, d.2)
    }
}

/// Remembers which reliable indices have already been handled.
#[derive(Debug)]
pub struct Dedup {
    seen: Vec<u32>,
    floor: u32,
    window: u32,
}

impl View for Dedup {
    type V = DedupView;

    closed spec fn view(&self) -> DedupView {
        (self.seen@, self.floor, self.window)
    }
}

impl Dedup {
    /// Remembers indices within `window` of the highest one seen.
    pub fn new(window: u32) -> (d: Self)
        ensures
            d@ == (Seq::<u32>::empty(), 0u32, window),
    {
        Dedup { seen: Vec::new(), floor: 0, window }
    }

    /// Whether this index is new. Marks it seen when it is; anything below the floor
    /// reads as seen.
    pub fn accept(&mut self, index: u32) -> (fresh: bool)
        ensures
            fresh == (index >= old(self)@.1 && !old(self)@.0.contains(index)),
            fresh ==> final(self)@ == accept_spec(old(self)@, index),
            !fresh ==> final(self)@ == old(self)@,
    {
        if index < self.floor {
            return false;
        }
        let mut i: usize = 0;
        while i < self.seen.len()
            invariant
                i <= self.seen@.len(),
                forall|j: int| 0 <= j < i ==> self.seen@[j] != index,
            decreases self.seen@.len() - i,
        {
            if self.seen[i] == index {
                proof {
                    assert(self.seen@.contains(index));
                }
                return false;
            }
            i = i + 1;
        }
        let ghost before = self@;
        let mut seen = Vec::new();
        std::mem::swap(&mut seen, &mut self.seen);
        seen.push(index);
        let mut highest: u32 = 0;
        let mut k: usize = 0;
        while k < seen.len()
            invariant
                k <= seen@.len(),
                highest == seq_max(seen@.take(k as int)),
            decreases seen@.len() - k,
        {
            proof {
                assert(seen@.take(k + 1).drop_last() =~= seen@.take(k as int));
            }
            if seen[k] > highest {
                highest = seen[k];
            }
            k = k + 1;
        }
        proof {
            assert(seen@.take(k as int) =~= seen@);
        }
        let new_floor: u32 = if highest >= self.window {
            highest - self.window
        } else {
            0
        };
        if new_floor > self.floor {
            let mut kept: Vec<u32> = Vec::new();
            let mut j: usize = 0;
            proof {
                reveal(Seq::filter);
                assert(seen@.take(0) =~= Seq::<u32>::empty());
            }
            while j < seen.len()
                invariant
                    j <= seen@.len(),
                    kept@ == seen@.take(j as int).filter(|x: u32| x >= new_floor),
                decreases seen@.len() - j,
            {
                proof {
                    assert(seen@.take(j + 1) =~= seen@.take(j as int).push(seen@[j as int]));
                    seen@.take(j as int).lemma_filter_push(seen@[j as int], |x: u32| x >= new_floor);
                }
                if seen[j] >= new_floor {
                    kept.push(seen[j]);
                }
                j = j + 1;
            }
            proof {
                assert(seen@.take(j as int) =~= seen@);
            }
            self.seen = kept;
            self.floor = new_floor;
        } else {
            self.seen = seen;
        }
        true
    }

    /// Indices currently remembered.
    pub fn remembered(&self) -> (n: usize)
        ensures
            n == self@.0.len(),
    {
        self.seen.len()
    }
}

/// An index a filter refuses stays refused whatever it accepts next: together with
/// [`lemma_accept_once`], an index is accepted at most once over a filter's lifetime.
pub proof fn lemma_refused_stays_refused(d: DedupView, index: u32, next: u32)
    requires
        !(index >= d.1 && !d.0.contains(index)),
    ensures
        ({
            let after = accept_spec(d, next);
            !(index >= after.1 && !after.0.contains(index))
        }),
{
    let seen = d.0.push(next);
    let floor = saturating_sub(seq_max(seen), d.2);
    if floor > d.1 && index >= floor {
        let keep = |x: u32| x >= floor;
        seen.filter_lemma(keep);
        assert(d.0.contains(index));
        let k = choose|k: int| 0 <= k < d.0.len() && d.0[k] == index;
        assert(seen[k] == index);
        assert(seen.filter(keep).contains(index));
    } else if !(floor > d.1) {
        if index >= d.1 {
            let k = choose|k: int| 0 <= k < d.0.len() && d.0[k] == index;
            assert(seen[k] == index);
        }
    }
}

/// An index accepted once is refused when it comes again.
pub proof fn lemma_accept_once(d: DedupView, index: u32)
    requires
        index >= d.1,
        !d.0.contains(index),
    ensures
        ({
            let after = accept_spec(d, index);
            !(index >= after.1 && !after.0.contains(index))
        }),
{
    let seen = d.0.push(index);
    let floor = saturating_sub(seq_max(seen), d.2);
    assert(seen[seen.len() - 1] == index);
    if floor > d.1 && index >= floor {
        let keep = |x: u32| x >= floor;
        seen.filter_lemma(keep);
        assert(seen.filter(keep).contains(seen[seen.len() - 1]));
    } else if !(floor > d.1) {
        assert(seen.contains(index));
    }
}

/// Every index of a sequence is at most its maximum, and a nonempty sequence holds it.
proof fn lemma_seq_max(s: Seq<u32>)
    ensures
        forall|k: int| 0 <= k < s.len() ==> #[trigger] s[k] <= seq_max(s),
    decreases s.len(),
{
    if s.len() > 0 {
        lemma_seq_max(s.drop_last());
        assert forall|k: int| 0 <= k < s.len() implies #[trigger] s[k] <= seq_max(s) by {
            if k < s.len() - 1 {
                assert(s[k] == s.drop_last()[k]);
            }
        }
    }
}

/// Filtering keeps a sequence free of duplicates.
proof fn lemma_filter_no_duplicates(s: Seq<u32>, p: spec_fn(u32) -> bool)
    requires
        s.no_duplicates(),
    ensures
        s.filter(p).no_duplicates(),
    decreases s.len(),
{
    reveal(Seq::filter);
    if s.len() > 0 {
        let init = s.drop_last();
        assert(init.no_duplicates()) by {
            assert forall|i: int, j: int| 0 <= i < j < init.len() implies init[i] != init[j] by {
                assert(init[i] == s[i] && init[j] == s[j]);
            }
        }
        lemma_filter_no_duplicates(init, p);
        if p(s.last()) {
            let f = init.filter(p);
            init.filter_lemma(p);
            assert(!f.contains(s.last())) by {
                if f.contains(s.last()) {
                    init.lemma_filter_contains_rev(p, s.last());
                    assert(init.contains(s.last()));
                    let k = choose|k: int| 0 <= k < init.len() && init[k] == s.last();
                    assert(s[k] == s[s.len() - 1]);
                }
            }
            assert(s.filter(p) == f.push(s.last()));
            assert forall|i: int, j: int| 0 <= i < j < f.push(s.last()).len() implies f.push(
                s.last(),
            )[i] != f.push(s.last())[j] by {
                if j == f.len() {
                    assert(f.contains(f[i]));
                }
            }
        }
    }
}

/// The shape every filter keeps: each index remembered once, none below the floor, and
/// none more than the window above it.
pub open spec fn dedup_bounded(d: DedupView) -> bool {
    &&& d.0.no_duplicates()
    &&& forall|k: int| 0 <= k < d.0.len() ==> d.1 <= #[trigger] d.0[k] && d.0[k] <= d.1 + d.2
}

/// Distinct indices that all lie within `window` of a floor number at most `window + 1`.
proof fn lemma_bounded_len(seen: Seq<u32>, floor: u32, window: u32)
    requires
        seen.no_duplicates(),
        forall|k: int| 0 <= k < seen.len() ==> floor <= #[trigger] seen[k] && seen[k] <= floor + window,
    ensures
        seen.len() <= window + 1,
{
    let f = |x: u32| x as int;
    let t = seen.map_values(f);
    assert(vstd::relations::injective(f)) by {
        assert forall|a: u32, b: u32| #[trigger] f(a) == #[trigger] f(b) implies a == b by {}
    }
    seen.lemma_no_duplicates_injective(f);
    let range = vstd::set_lib::set_int_range(floor as int, floor + window + 1);
    vstd::set_lib::lemma_int_range(floor as int, floor + window + 1);
    assert forall|y: int| #[trigger] t.to_set().contains(y) implies range.contains(y) by {
        assert(t.contains(y));
        let k = choose|k: int| 0 <= k < t.len() && t[k] == y;
        assert(t[k] == seen[k] as int);
    }
    vstd::set_lib::lemma_len_subset(t.to_set(), range);
    t.unique_seq_to_set();
}

/// The filter's memory is bounded: accepting a new index keeps every index remembered
/// once and within the window of the floor, so a filter never remembers more than
/// `window + 1` indices, however many it has seen.
pub proof fn lemma_dedup_stays_bounded(d: DedupView, index: u32)
    requires
        dedup_bounded(d),
        index >= d.1,
        !d.0.contains(index),
    ensures
        dedup_bounded(accept_spec(d, index)),
        accept_spec(d, index).0.len() <= d.2 + 1,
{
    let seen = d.0.push(index);
    let top = seq_max(seen);
    let floor = saturating_sub(top, d.2);
    lemma_seq_max(seen);
    assert(seen.no_duplicates()) by {
        assert forall|i: int, j: int| 0 <= i < j < seen.len() implies seen[i] != seen[j] by {
            if j == seen.len() - 1 {
                assert(seen[i] == d.0[i]);
                assert(d.0.contains(d.0[i]));
            }
        }
    }
    let after = accept_spec(d, index);
    if floor > d.1 {
        let keep = |x: u32| x >= floor;
        let kept = seen.filter(keep);
        seen.filter_lemma(keep);
        lemma_filter_no_duplicates(seen, keep);
        assert forall|k: int| 0 <= k < kept.len() implies floor <= #[trigger] kept[k] && kept[k]
            <= floor + d.2 by {
            assert(kept.contains(kept[k]));
            seen.lemma_filter_contains_rev(keep, kept[k]);
            assert(seen.contains(kept[k]));
            let m = choose|m: int| 0 <= m < seen.len() && seen[m] == kept[k];
            assert(seen[m] <= top);
        }
        lemma_bounded_len(kept, floor, d.2);
    } else {
        assert forall|k: int| 0 <= k < seen.len() implies d.1 <= #[trigger] seen[k] && seen[k]
            <= d.1 + d.2 by {
            if k < seen.len() - 1 {
                assert(seen[k] == d.0[k]);
            }
            assert(seen[k] <= top);
        }
        lemma_bounded_len(seen, d.1, d.2);
    }
}

/// Whether a filter takes `index` as new.
pub open spec fn fresh_for(d: DedupView, index: u32) -> bool {
    index >= d.1 && !d.0.contains(index)
}

/// A filter after a run of indices offered to `accept` one after another: each new one
/// is remembered, each other one changes nothing.
pub open spec fn after_all(d: DedupView, indices: Seq<u32>) -> DedupView
    decreases indices.len(),
{
    if indices.len() == 0 {
        d
    } else {
        let before = after_all(d, indices.drop_last());
        if fresh_for(before, indices.last()) {
            accept_spec(before, indices.last())
        } else {
            before
        }
    }
}

/// Over a filter's whole life, from empty through any run of offers, an index is taken
/// as new at most once, and the filter never remembers more than its window and one.
pub proof fn lemma_dedup_lifetime(window: u32, indices: Seq<u32>)
    ensures
        ({
            let d0 = (Seq::<u32>::empty(), 0u32, window);
            &&& forall|i: int, j: int|
                #![trigger indices[i], indices[j]]
                0 <= i < j < indices.len() && indices[i] == indices[j] && fresh_for(
                    after_all(d0, indices.take(i)),
                    indices[i],
                ) ==> !fresh_for(after_all(d0, indices.take(j)), indices[j])
            &&& dedup_bounded(after_all(d0, indices))
            &&& after_all(d0, indices).0.len() <= window + 1
            &&& after_all(d0, indices).2 == window
        }),
    decreases indices.len(),
{
    let d0 = (Seq::<u32>::empty(), 0u32, window);
    if indices.len() == 0 {
        assert(d0.0.no_duplicates());
    } else {
        let init = indices.drop_last();
        lemma_dedup_lifetime(window, init);
        let before = after_all(d0, init);
        assert(indices.take(indices.len() - 1) =~= init);
        if fresh_for(before, indices.last()) {
            lemma_dedup_stays_bounded(before, indices.last());
        }
        assert forall|i: int, j: int|
            #![trigger indices[i], indices[j]]
            0 <= i < j < indices.len() && indices[i] == indices[j] && fresh_for(
                after_all(d0, indices.take(i)),
                indices[i],
            ) implies !fresh_for(after_all(d0, indices.take(j)), indices[j]) by {
            assert(indices.take(i) =~= init.take(i));
            lemma_refused_forever(d0, indices, i, j);
        }
    }
}

/// An index taken as new at one offer is refused at every later offer.
proof fn lemma_refused_forever(d0: DedupView, indices: Seq<u32>, i: int, j: int)
    requires
        0 <= i < j <= indices.len(),
        fresh_for(after_all(d0, indices.take(i)), indices[i]),
    ensures
        !fresh_for(after_all(d0, indices.take(j)), indices[i]),
    decreases j - i,
{
    let t = indices.take(j);
    assert(t.drop_last() =~= indices.take(j - 1));
    if j == i + 1 {
        assert(t.last() == indices[i]);
        lemma_accept_once(after_all(d0, indices.take(i)), indices[i]);
    } else {
        lemma_refused_forever(d0, indices, i, j - 1);
        let before = after_all(d0, indices.take(j - 1));
        if fresh_for(before, t.last()) {
            lemma_refused_stays_refused(before, indices[i], t.last());
        }
    }
}

} // verus!
