//! Which columns a player in the world is sent, and when.
//!
//! The server keeps, per player, the column streaming is centred on and the columns it
//! has already sent. Moving the centre forgets columns far behind, so that walking back
//! into them sends them again, and sends what came into view and was not sent yet.
use crate::protocol::level_chunk::{columns_around, columns_around_spec, CHUNK_WIDTH};
use vstd::prelude::*;

verus! {

/// How far the flat world's surface sits. The player spawns standing on it.
pub const SURFACE_HEIGHT: i32 = 80;

/// How far this server streams chunks, in chunks.
///
/// Small on purpose: granting a radius the server cannot fill leaves the client waiting
/// for chunks that are not coming.
pub const SERVER_CHUNK_RADIUS: i32 = 4;

/// How far past the view distance a column is remembered as already sent.
///
/// Without a margin, a player standing on a chunk boundary crosses it back and forth
/// and the columns behind them are forgotten and re-sent at every step.
pub const FORGET_MARGIN: i32 = 2;

/// The largest view distance a player can be streamed at: one whose width in blocks
/// still fits the publisher update's field.
pub const MAX_STREAM_RADIUS: i32 = 0x0100_0000;

/// A column, in chunk coordinates.
pub type Column = (i32, i32);

/// Whether `c` lies within `reach` columns of `center` along both axes.
pub open spec fn within(c: Column, center: Column, reach: int) -> bool {
    -reach <= c.0 - center.0 <= reach && -reach <= c.1 - center.1 <= reach
}

/// The columns of `wanted`, in order, that are neither in `known` nor earlier in
/// `wanted`: what sending each wanted column not yet sent sends.
pub open spec fn fresh(wanted: Seq<Column>, known: Set<Column>) -> Seq<Column>
    decreases wanted.len(),
{
    if wanted.len() == 0 {
        Seq::empty()
    } else {
        let prev = fresh(wanted.drop_last(), known);
        let w = wanted.last();
        if known.contains(w) || prev.contains(w) {
            prev
        } else {
            prev.push(w)
        }
    }
}

/// The chunk column a block coordinate lies in: floor division, so block -1 is in
/// column -1 and not column 0.
pub open spec fn column_of_block(block: i32) -> i32 {
    (block as int / 16) as i32
}

/// The column a block coordinate lies in.
pub fn column_of(block: i32) -> (c: i32)
    ensures
        c == column_of_block(block),
        c * 16 <= block < c * 16 + 16,
{
    crate::num::floor_div16(block)
}

/// What the server knows about a player who is in the world, for streaming: how far
/// they see, where streaming is centred, and which columns they were already sent.
#[derive(Debug)]
pub struct Streaming {
    radius: i32,
    center: Column,
    sent: Vec<Column>,
}

impl Streaming {
    /// The view distance granted, in chunks.
    pub closed spec fn radius_view(&self) -> i32 {
        self.radius
    }

    /// The column streaming is centred on.
    pub closed spec fn center_view(&self) -> Column {
        self.center
    }

    /// The columns remembered as sent.
    pub closed spec fn remembered(&self) -> Set<Column> {
        self.sent@.to_set()
    }

    /// The state every operation keeps: a view distance within bounds, and every
    /// remembered column remembered once.
    pub closed spec fn well_formed(&self) -> bool {
        &&& 0 <= self.radius <= MAX_STREAM_RADIUS
        &&& self.sent@.no_duplicates()
    }

    /// A player just placed at the origin, who has been sent nothing. A negative radius
    /// is none at all.
    pub fn new(radius: i32) -> (s: Self)
        requires
            radius <= MAX_STREAM_RADIUS,
        ensures
            s.well_formed(),
            s.radius_view() == (if radius < 0 {
                0
            } else {
                radius
            }),
            s.center_view() == (0i32, 0i32),
            s.remembered() == Set::<Column>::empty(),
    {
        let s = Streaming { radius: if radius < 0 {
            0
        } else {
            radius
        }, center: (0, 0), sent: Vec::new() };
        proof {
            assert(s.sent@.to_set() =~= Set::<Column>::empty());
        }
        s
    }

    /// The view distance granted, in chunks.
    pub fn radius(&self) -> (r: i32)
        ensures
            r == self.radius_view(),
    {
        self.radius
    }

    /// The column streaming is centred on.
    pub fn center(&self) -> (c: Column)
        ensures
            c == self.center_view(),
    {
        self.center
    }

    /// Whether a column is remembered as sent.
    pub fn has_sent(&self, column: Column) -> (b: bool)
        ensures
            b == self.remembered().contains(column),
    {
        let mut i: usize = 0;
        while i < self.sent.len()
            invariant
                i <= self.sent@.len(),
                forall|k: int| 0 <= k < i ==> self.sent@[k] != column,
            decreases self.sent@.len() - i,
        {
            if self.sent[i].0 == column.0 && self.sent[i].1 == column.1 {
                proof {
                    assert(self.sent@.to_set().contains(self.sent@[i as int]));
                }
                return true;
            }
            i = i + 1;
        }
        false
    }

    /// How many columns are remembered.
    pub fn remembered_count(&self) -> (n: usize)
        requires
            self.well_formed(),
        ensures
            n == self.remembered().len(),
    {
        proof {
            self.sent@.unique_seq_to_set();
        }
        self.sent.len()
    }

    /// The width in blocks the publisher update declares: the view distance times a
    /// chunk's width.
    pub fn publisher_radius(&self) -> (r: u32)
        requires
            self.well_formed(),
        ensures
            r == self.radius_view() * CHUNK_WIDTH,
    {
        (self.radius * CHUNK_WIDTH) as u32
    }

    /// Moves streaming to `center`: forgets the columns further than the view distance
    /// and [`FORGET_MARGIN`] from it, and returns the columns within the view distance
    /// that are not remembered, in the order they are sent, remembering them.
    pub fn recentre(&mut self, center: Column) -> (out: Vec<Column>)
        requires
            old(self).well_formed(),
            i32::MIN + MAX_STREAM_RADIUS <= center.0 <= i32::MAX - MAX_STREAM_RADIUS,
            i32::MIN + MAX_STREAM_RADIUS <= center.1 <= i32::MAX - MAX_STREAM_RADIUS,
        ensures
            final(self).well_formed(),
            final(self).radius_view() == old(self).radius_view(),
            final(self).center_view() == center,
            out@ == fresh(
                columns_around_spec(center.0, center.1, old(self).radius_view()),
                old(self).remembered().filter(
                    |c: Column| within(c, center, old(self).radius_view() + FORGET_MARGIN),
                ),
            ),
            final(self).remembered() == old(self).remembered().filter(
                |c: Column| within(c, center, old(self).radius_view() + FORGET_MARGIN),
            ) + columns_around_spec(center.0, center.1, old(self).radius_view()).to_set(),
    {
        let ghost kept_set = old(self).remembered().filter(
            |c: Column| within(c, center, old(self).radius_view() + FORGET_MARGIN),
        );
        self.center = center;
        let forget = self.radius + FORGET_MARGIN;

        // Columns far behind are forgotten so that walking back into them sends them
        // again.
        let mut kept: Vec<Column> = Vec::new();
        let mut i: usize = 0;
        while i < self.sent.len()
            invariant
                i <= self.sent@.len(),
                self.sent@ == old(self).sent@,
                self.radius == old(self).radius,
                forget == self.radius + FORGET_MARGIN,
                0 <= self.radius <= MAX_STREAM_RADIUS,
                self.sent@.no_duplicates(),
                kept@.no_duplicates(),
                kept@.to_set() == self.sent@.take(i as int).to_set().filter(
                    |c: Column| within(c, center, forget as int),
                ),
                forall|k: int| 0 <= k < kept@.len() ==> #[trigger] self.sent@.take(i as int).contains(
                    kept@[k],
                ),
            decreases self.sent@.len() - i,
        {
            let c = self.sent[i];
            let dx = c.0 as i64 - center.0 as i64;
            let dz = c.1 as i64 - center.1 as i64;
            proof {
                assert(self.sent@.take(i + 1) =~= self.sent@.take(i as int).push(c));
            }
            if -(forget as i64) <= dx && dx <= forget as i64 && -(forget as i64) <= dz && dz
                <= forget as i64 {
                proof {
                    assert(!self.sent@.take(i as int).contains(c)) by {
                        if self.sent@.take(i as int).contains(c) {
                            let k = choose|k: int| 0 <= k < i && self.sent@.take(i as int)[k] == c;
                            assert(self.sent@[k] == self.sent@[i as int]);
                        }
                    }
                    assert(!kept@.contains(c));
                }
                let ghost before = kept@;
                kept.push(c);
                proof {
                    before.lemma_push_to_set_commute(c);
                    self.sent@.take(i as int).lemma_push_to_set_commute(c);
                    assert(kept@.to_set() =~= before.to_set().insert(c));
                    assert(self.sent@.take(i + 1).to_set() =~= self.sent@.take(i as int).to_set().insert(c));
                    assert(kept@.to_set() =~= self.sent@.take(i + 1).to_set().filter(
                        |c: Column| within(c, center, forget as int),
                    ));
                    assert forall|k: int| 0 <= k < kept@.len() implies #[trigger] self.sent@.take(
                        i + 1,
                    ).contains(kept@[k]) by {
                        if k < before.len() {
                            assert(self.sent@.take(i as int).contains(before[k]));
                            let m = choose|m: int| 0 <= m < i && self.sent@.take(i as int)[m] == before[k];
                            assert(self.sent@.take(i + 1)[m] == before[k]);
                        } else {
                            assert(self.sent@.take(i + 1)[i as int] == c);
                        }
                    }
                }
            } else {
                proof {
                    self.sent@.take(i as int).lemma_push_to_set_commute(c);
                    assert(self.sent@.take(i + 1).to_set() =~= self.sent@.take(i as int).to_set().insert(c));
                    assert(kept@.to_set() =~= self.sent@.take(i + 1).to_set().filter(
                        |c: Column| within(c, center, forget as int),
                    ));
                    assert forall|k: int| 0 <= k < kept@.len() implies #[trigger] self.sent@.take(
                        i + 1,
                    ).contains(kept@[k]) by {
                        assert(self.sent@.take(i as int).contains(kept@[k]));
                        let m = choose|m: int| 0 <= m < i && self.sent@.take(i as int)[m] == kept@[k];
                        assert(self.sent@.take(i + 1)[m] == kept@[k]);
                    }
                }
            }
            i = i + 1;
        }
        proof {
            assert(self.sent@.take(i as int) =~= self.sent@);
            assert(kept@.to_set() =~= kept_set);
        }

        let wanted = columns_around(center.0, center.1, self.radius);
        let mut out: Vec<Column> = Vec::new();
        let mut j: usize = 0;
        proof {
            assert(wanted@.take(0) =~= Seq::<Column>::empty());
            assert(kept@.to_set() + wanted@.take(0).to_set() =~= kept@.to_set());
        }
        while j < wanted.len()
            invariant
                j <= wanted@.len(),
                kept@.no_duplicates(),
                kept@.to_set() == kept_set + wanted@.take(j as int).to_set(),
                out@ == fresh(wanted@.take(j as int), kept_set),
            decreases wanted@.len() - j,
        {
            let w = wanted[j];
            proof {
                assert(wanted@.take(j + 1) =~= wanted@.take(j as int).push(w));
                assert(wanted@.take(j + 1).drop_last() =~= wanted@.take(j as int));
                lemma_fresh_within(wanted@.take(j as int), kept_set);
                wanted@.take(j as int).lemma_push_to_set_commute(w);
                assert(wanted@.take(j + 1).to_set() =~= wanted@.take(j as int).to_set().insert(w));
            }
            let mut seen = false;
            let mut k: usize = 0;
            while k < kept.len()
                invariant
                    k <= kept@.len(),
                    seen == (exists|m: int| 0 <= m < k && kept@[m] == w),
                decreases kept@.len() - k,
            {
                if kept[k].0 == w.0 && kept[k].1 == w.1 {
                    seen = true;
                }
                k = k + 1;
            }
            proof {
                assert(seen == kept@.contains(w));
                assert(seen == kept@.to_set().contains(w));
            }
            if !seen {
                let ghost before = kept@;
                kept.push(w);
                out.push(w);
                proof {
                    before.lemma_push_to_set_commute(w);
                    assert(kept@.to_set() =~= before.to_set().insert(w));
                }
            } else {
                proof {
                    assert(kept@.to_set() + wanted@.take(j + 1).to_set() =~= kept@.to_set());
                }
            }
            j = j + 1;
        }
        proof {
            assert(wanted@.take(j as int) =~= wanted@);
            assert(kept@.to_set() =~= kept_set + wanted@.to_set());
        }
        self.sent = kept;
        out
    }
}

impl Streaming {
    /// Takes the column a player reports standing in: a player still in the column
    /// streaming is centred on costs nothing, and one who crossed into another is
    /// streamed around it.
    pub fn walk_to(&mut self, column: Column) -> (out: Option<Vec<Column>>)
        requires
            old(self).well_formed(),
            i32::MIN + MAX_STREAM_RADIUS <= column.0 <= i32::MAX - MAX_STREAM_RADIUS,
            i32::MIN + MAX_STREAM_RADIUS <= column.1 <= i32::MAX - MAX_STREAM_RADIUS,
        ensures
            final(self).well_formed(),
            column == old(self).center_view() ==> out is None && final(self).center_view()
                == old(self).center_view() && final(self).remembered() == old(self).remembered()
                && final(self).radius_view() == old(self).radius_view(),
            column != old(self).center_view() ==> (out matches Some(v) && v@ == fresh(
                columns_around_spec(column.0, column.1, old(self).radius_view()),
                old(self).remembered().filter(
                    |c: Column| within(c, column, old(self).radius_view() + FORGET_MARGIN),
                ),
            ) && final(self).center_view() == column && final(self).radius_view() == old(
                self,
            ).radius_view() && final(self).remembered() == old(self).remembered().filter(
                |c: Column| within(c, column, old(self).radius_view() + FORGET_MARGIN),
            ) + columns_around_spec(column.0, column.1, old(self).radius_view()).to_set()),
    {
        if column.0 == self.center.0 && column.1 == self.center.1 {
            None
        } else {
            Some(self.recentre(column))
        }
    }
}

/// Every column [`fresh`] emits is wanted, was not known, and is emitted once; and what
/// was known or emitted is exactly what was known or wanted.
pub proof fn lemma_fresh_within(wanted: Seq<Column>, known: Set<Column>)
    ensures
        fresh(wanted, known).no_duplicates(),
        forall|k: int|
            0 <= k < fresh(wanted, known).len() ==> wanted.contains(#[trigger] fresh(wanted, known)[k])
                && !known.contains(fresh(wanted, known)[k]),
        forall|c: Column| #[trigger] wanted.contains(c) ==> known.contains(c) || fresh(wanted, known).contains(c),
    decreases wanted.len(),
{
    if wanted.len() > 0 {
        let init = wanted.drop_last();
        lemma_fresh_within(init, known);
        let prev = fresh(init, known);
        let w = wanted.last();
        assert forall|k: int| 0 <= k < fresh(wanted, known).len() implies wanted.contains(
            #[trigger] fresh(wanted, known)[k],
        ) && !known.contains(fresh(wanted, known)[k]) by {
            if k < prev.len() {
                assert(fresh(wanted, known)[k] == prev[k]);
                assert(init.contains(prev[k]));
                let m = choose|m: int| 0 <= m < init.len() && init[m] == prev[k];
                assert(wanted[m] == prev[k]);
            } else {
                assert(wanted[wanted.len() - 1] == w);
            }
        }
        assert forall|c: Column| #[trigger] wanted.contains(c) implies known.contains(c) || fresh(
            wanted,
            known,
        ).contains(c) by {
            let m = choose|m: int| 0 <= m < wanted.len() && wanted[m] == c;
            if m < wanted.len() - 1 {
                assert(init[m] == c);
                assert(init.contains(c));
                if prev.contains(c) {
                    let q = choose|q: int| 0 <= q < prev.len() && prev[q] == c;
                    if !(known.contains(w) || prev.contains(w)) {
                        assert(fresh(wanted, known)[q] == c);
                    }
                }
            } else {
                if !(known.contains(w) || prev.contains(w)) {
                    assert(fresh(wanted, known)[prev.len() as int] == w);
                }
            }
        }
    }
}

/// Recentring never sends a column twice while it is remembered, and never sends one
/// outside the view distance: each column it returns is within the radius of the new
/// centre, was not remembered after the forgetting, and is returned once.
pub proof fn lemma_recentre_sends_each_column_once(
    center: Column,
    radius: i32,
    remembered: Set<Column>,
)
    requires
        0 <= radius <= MAX_STREAM_RADIUS,
        i32::MIN + MAX_STREAM_RADIUS <= center.0 <= i32::MAX - MAX_STREAM_RADIUS,
        i32::MIN + MAX_STREAM_RADIUS <= center.1 <= i32::MAX - MAX_STREAM_RADIUS,
    ensures
        ({
            let kept = remembered.filter(|c: Column| within(c, center, radius + FORGET_MARGIN));
            let out = fresh(columns_around_spec(center.0, center.1, radius), kept);
            &&& out.no_duplicates()
            &&& forall|k: int| 0 <= k < out.len() ==> within(#[trigger] out[k], center, radius as int)
                && !kept.contains(out[k])
        }),
{
    let kept = remembered.filter(|c: Column| within(c, center, radius + FORGET_MARGIN));
    let wanted = columns_around_spec(center.0, center.1, radius);
    lemma_fresh_within(wanted, kept);
    let out = fresh(wanted, kept);
    assert forall|k: int| 0 <= k < out.len() implies within(#[trigger] out[k], center, radius as int)
        && !kept.contains(out[k]) by {
        assert(wanted.contains(out[k]));
        let m = choose|m: int| 0 <= m < wanted.len() && wanted[m] == out[k];
        lemma_columns_around_within(center, radius, m);
    }
}

/// The `m`-th column around a centre is within the radius of it.
proof fn lemma_columns_around_within(center: Column, radius: i32, m: int)
    requires
        0 <= radius <= MAX_STREAM_RADIUS,
        i32::MIN + MAX_STREAM_RADIUS <= center.0 <= i32::MAX - MAX_STREAM_RADIUS,
        i32::MIN + MAX_STREAM_RADIUS <= center.1 <= i32::MAX - MAX_STREAM_RADIUS,
        0 <= m < columns_around_spec(center.0, center.1, radius).len(),
    ensures
        within(columns_around_spec(center.0, center.1, radius)[m], center, radius as int),
{
    let side: int = 2 * radius + 1;
    assert(m < side * side);
    assert(0 <= m / side < side) by (nonlinear_arith)
        requires
            0 <= m < side * side,
            side > 0,
    ;
    assert(0 <= m % side < side) by (nonlinear_arith)
        requires
            side > 0,
    ;
}

} // verus!
