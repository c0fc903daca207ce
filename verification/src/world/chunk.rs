//! A column of the world: every section at one horizontal position, stacked.
//!
//! The overworld runs from y = -64 to y = 320, which is 24 sections.
use crate::blocks::{air, air_name, is_air_block, Block, BlockView, PropertyView};
use crate::num::{floor_div16, mod16};
use crate::world::section::{block_of, blocks_of, in_section, offset_of, position_in, Section, SectionView};
use std::sync::Arc;
use vstd::prelude::*;

verus! {

/// The lowest section index in the overworld: y = -64.
pub const MIN_SECTION: i32 = -4;

/// The highest section index in the overworld: the one containing y = 319.
pub const MAX_SECTION: i32 = 19;

/// How many sections a full column has.
pub const SECTION_COUNT: usize = 24;

/// The lowest block a column can hold.
pub const MIN_Y: i32 = -64;

/// One above the highest block a column can hold.
pub const MAX_Y: i32 = 320;

/// `Arc::clone`: another pointer to the same section, which is what lets columns share
/// sections.
#[verifier::external_body]
pub(crate) fn share(s: &Arc<Section>) -> (r: Arc<Section>)
    ensures
        r == *s,
{
    Arc::clone(s)
}

/// A column as the contracts see it: its position and its sections, bottom first.
pub type ChunkView = (i32, i32, Seq<SectionView>);

/// The views of a list of shared sections.
pub open spec fn sections_view(ss: Seq<Arc<Section>>) -> Seq<SectionView> {
    ss.map_values(|s: Arc<Section>| s@)
}

/// The slot of section `index` in a column, if the column has it.
pub open spec fn slot_of(index: int) -> Option<int> {
    if MIN_SECTION <= index <= MAX_SECTION {
        Some(index - MIN_SECTION)
    } else {
        None
    }
}

/// The block a column holds at `x`, world `y`, `z`, if the position is inside it.
pub open spec fn column_block(c: ChunkView, x: int, y: int, z: int) -> Option<BlockView> {
    match slot_of(y / 16) {
        Some(slot) => if in_section(x, y % 16, z) {
            Some(block_of(c.2[slot], offset_of(x, y % 16, z)))
        } else {
            None
        },
        None => None,
    }
}

/// Whether writing `b` at a position of a column goes through: the position is inside
/// the column, and either it holds `b` already or its section's palette has room.
pub open spec fn writable(c: ChunkView, x: int, y: int, z: int, b: BlockView) -> bool {
    match slot_of(y / 16) {
        Some(slot) => in_section(x, y % 16, z) && (block_of(c.2[slot], offset_of(x, y % 16, z)) == b
            || position_in(c.2[slot].0, b) <= 65535),
        None => false,
    }
}

/// A section of air.
pub open spec fn air_section() -> SectionView {
    (seq![(air_name(), Seq::<PropertyView>::empty())], None)
}

/// Whether a section has nothing but air in its palette.
pub open spec fn section_empty(s: SectionView) -> bool {
    forall|i: int| 0 <= i < s.0.len() ==> is_air_block(#[trigger] s.0[i])
}

/// The highest section index whose section is not all air, among the first `n`.
pub open spec fn highest_used(ss: Seq<SectionView>, n: int) -> Option<int>
    decreases n,
{
    if n <= 0 {
        None
    } else if !section_empty(ss[n - 1]) {
        Some(MIN_SECTION + n - 1)
    } else {
        highest_used(ss, n - 1)
    }
}

/// Which section a world y falls in. Negative y rounds down, not towards zero.
pub fn section_index(y: i32) -> (i: i32)
    ensures
        i == y / 16,
{
    floor_div16(y)
}

/// How far up inside its section a world y sits.
pub fn section_offset(y: i32) -> (o: usize)
    ensures
        o == y % 16,
{
    mod16(y)
}

/// A column of sections at a fixed `(x, z)` in chunk coordinates.
///
/// Sections are behind `Arc` so that handing one to a serializer costs a pointer copy
/// and hands out no way to change it.
#[derive(Debug)]
pub struct Chunk {
    x: i32,
    z: i32,
    sections: Vec<Arc<Section>>,
}

impl View for Chunk {
    type V = ChunkView;

    closed spec fn view(&self) -> ChunkView {
        (self.x, self.z, sections_view(self.sections@))
    }
}

/// `n` pointers to one section.
fn repeat(s: &Arc<Section>, n: usize) -> (out: Vec<Arc<Section>>)
    ensures
        out@.len() == n,
        sections_view(out@) == Seq::new(n as nat, |i: int| s@),
{
    let mut out: Vec<Arc<Section>> = Vec::new();
    let mut i: usize = 0;
    while i < n
        invariant
            i <= n,
            out@.len() == i,
            forall|j: int| 0 <= j < i ==> (#[trigger] out@[j])@ == s@,
        decreases n - i,
    {
        out.push(share(s));
        i = i + 1;
    }
    proof {
        assert(sections_view(out@) =~= Seq::new(n as nat, |i: int| s@));
    }
    out
}

/// A section of air, behind its pointer.
fn air_arc() -> (s: Arc<Section>)
    ensures
        s@ == air_section(),
{
    Arc::new(Section::uniform(air()))
}

impl Chunk {
    #[verifier::type_invariant]
    closed spec fn well_formed(self) -> bool {
        self.sections@.len() == 24
    }

    /// A column of air at `(x, z)`. Every section starts out sharing one allocation.
    pub fn empty(x: i32, z: i32) -> (c: Self)
        ensures
            c@ == (x, z, Seq::new(24, |i: int| air_section())),
    {
        let a = air_arc();
        let sections = repeat(&a, SECTION_COUNT);
        Chunk { x, z, sections }
    }

    /// A column built from its sections, bottom first. Fewer than [`SECTION_COUNT`] are
    /// padded with air; more are refused.
    pub fn from_sections(x: i32, z: i32, sections: Vec<Arc<Section>>) -> (c: Option<Self>)
        ensures
            match c {
                None => sections@.len() > 24,
                Some(c) => sections@.len() <= 24 && c@ == (x, z, sections_view(sections@) + Seq::new(
                    (24 - sections@.len()) as nat,
                    |i: int| air_section(),
                )),
            },
    {
        if sections.len() > SECTION_COUNT {
            return None;
        }
        let ghost given = sections_view(sections@);
        let mut sections = sections;
        let a = air_arc();
        while sections.len() < SECTION_COUNT
            invariant
                sections@.len() <= 24,
                given.len() <= sections@.len(),
                a@ == air_section(),
                sections_view(sections@) == given + Seq::new(
                    (sections@.len() - given.len()) as nat,
                    |i: int| air_section(),
                ),
            decreases 24 - sections@.len(),
        {
            let ghost before = sections_view(sections@);
            sections.push(share(&a));
            proof {
                assert(sections_view(sections@) =~= before.push(air_section()));
                assert(sections_view(sections@) =~= given + Seq::new(
                    (sections@.len() - given.len()) as nat,
                    |i: int| air_section(),
                ));
            }
        }
        Some(Chunk { x, z, sections })
    }

    /// Where this column sits, in chunk coordinates.
    pub fn position(&self) -> (p: (i32, i32))
        ensures
            p == (self@.0, self@.1),
    {
        (self.x, self.z)
    }

    /// The sections, bottom first. The first one is [`MIN_SECTION`].
    pub fn sections(&self) -> (ss: &[Arc<Section>])
        ensures
            sections_view(ss@) == self@.2,
            ss@.len() == 24,
    {
        proof {
            use_type_invariant(self);
        }
        self.sections.as_slice()
    }

    /// One section by its index, where the index is a section-sized slice of world y.
    pub fn section(&self, index: i32) -> (s: Option<&Arc<Section>>)
        ensures
            match s {
                Some(s) => slot_of(index as int) matches Some(slot) && s@ == self@.2[slot],
                None => slot_of(index as int) is None,
            },
    {
        proof {
            use_type_invariant(self);
        }
        if index < MIN_SECTION || index > MAX_SECTION {
            return None;
        }
        let slot = (index - MIN_SECTION) as usize;
        Some(&self.sections[slot])
    }

    /// The highest section that is not entirely air, if any: how much of the column is
    /// worth writing.
    pub fn highest_used_section(&self) -> (h: Option<i32>)
        ensures
            h == (match highest_used(self@.2, 24) {
                Some(i) => Some(i as i32),
                None => None,
            }),
    {
        proof {
            use_type_invariant(self);
        }
        let mut n: usize = SECTION_COUNT;
        while n > 0
            invariant
                n <= 24,
                self.sections@.len() == 24,
                highest_used(self@.2, 24) == highest_used(self@.2, n as int),
            decreases n,
        {
            if !self.sections[n - 1].is_empty() {
                proof {
                    assert(self@.2[n - 1] == self.sections@[n - 1]@);
                }
                return Some(MIN_SECTION + (n - 1) as i32);
            }
            proof {
                assert(self@.2[n - 1] == self.sections@[n - 1]@);
            }
            n = n - 1;
        }
        None
    }

    /// The block at a position, with `y` in world coordinates and `x`/`z` relative to
    /// the column.
    pub fn block_at(&self, x: usize, y: i32, z: usize) -> (b: Option<&Block>)
        ensures
            match b {
                Some(b) => column_block(self@, x as int, y as int, z as int) == Some(b@),
                None => column_block(self@, x as int, y as int, z as int) is None,
            },
    {
        let section = match self.section(section_index(y)) {
            Some(s) => s,
            None => return None,
        };
        let r = section.get(x, section_offset(y), z);
        proof {
            if let Some(b) = r {
                assert(blocks_of(section@)[offset_of(x as int, y as int % 16, z as int)] == block_of(
                    section@,
                    offset_of(x as int, y as int % 16, z as int),
                ));
            }
        }
        r
    }

    /// Replaces one block, copying the section it lands in. Returns whether the block
    /// was written; sections other than the one written keep sharing whatever they
    /// shared before.
    pub fn set_block(&mut self, x: usize, y: i32, z: usize, block: Block) -> (written: bool)
        ensures
            final(self)@.0 == old(self)@.0,
            final(self)@.1 == old(self)@.1,
            written == writable(old(self)@, x as int, y as int, z as int, block@),
            !written ==> final(self)@ == old(self)@,
            forall|x2: int, y2: int, z2: int|
                #[trigger] column_block(final(self)@, x2, y2, z2) == if written && x2 == x && y2 == y
                    && z2 == z {
                    Some(block@)
                } else {
                    column_block(old(self)@, x2, y2, z2)
                },
    {
        proof {
            use_type_invariant(&*self);
        }
        let index = section_index(y);
        if index < MIN_SECTION || index > MAX_SECTION {
            return false;
        }
        let slot = (index - MIN_SECTION) as usize;
        let offset_y = section_offset(y);
        let ghost before = self@;
        let ghost bv = block@;
        let updated = match self.sections[slot].with_block(x, offset_y, z, block) {
            Some(s) => s,
            None => return false,
        };
        let ghost sv = updated@;
        let fresh = Arc::new(updated);
        let mut sections: Vec<Arc<Section>> = Vec::new();
        let mut i: usize = 0;
        while i < SECTION_COUNT
            invariant
                i <= 24,
                slot < 24,
                self.sections@.len() == 24,
                fresh@ == sv,
                sections@.len() == i,
                forall|j: int| 0 <= j < i ==> (#[trigger] sections@[j])@ == (if j == slot {
                    sv
                } else {
                    self.sections@[j]@
                }),
            decreases 24 - i,
        {
            if i == slot {
                sections.push(share(&fresh));
            } else {
                sections.push(share(&self.sections[i]));
            }
            i = i + 1;
        }
        *self = Chunk { x: self.x, z: self.z, sections };
        proof {
            assert(self@.2 =~= before.2.update(slot as int, sv));
            assert forall|x2: int, y2: int, z2: int|
                #[trigger] column_block(self@, x2, y2, z2) == if x2 == x && y2 == y && z2 == z {
                    Some(bv)
                } else {
                    column_block(before, x2, y2, z2)
                } by {
                if let Some(s2) = slot_of(y2 / 16) {
                    if in_section(x2, y2 % 16, z2) {
                        let o2 = offset_of(x2, y2 % 16, z2);
                        assert(blocks_of(sv)[o2] == block_of(sv, o2));
                        assert(blocks_of(before.2[slot as int])[o2] == block_of(before.2[slot as int], o2));
                        if s2 == slot && o2 == offset_of(x as int, y as int % 16, z as int) {
                            crate::world::section::lemma_offset_injective(
                                x2,
                                y2 % 16,
                                z2,
                                x as int,
                                y as int % 16,
                                z as int,
                            );
                        }
                    }
                }
            }
        }
        true
    }

    /// Whether two columns sit at the same place and hold the same sections.
    pub fn same(&self, other: &Chunk) -> (r: bool)
        ensures
            r == (self@ == other@),
    {
        proof {
            use_type_invariant(self);
            use_type_invariant(other);
        }
        if self.x != other.x || self.z != other.z {
            return false;
        }
        let mut i: usize = 0;
        while i < SECTION_COUNT
            invariant
                i <= 24,
                self.sections@.len() == 24,
                other.sections@.len() == 24,
                forall|j: int| 0 <= j < i ==> #[trigger] sections_view(self.sections@)[j] == sections_view(
                    other.sections@,
                )[j],
            decreases 24 - i,
        {
            if !self.sections[i].same(&other.sections[i]) {
                proof {
                    assert(self@.2[i as int] != other@.2[i as int]);
                }
                return false;
            }
            i = i + 1;
        }
        proof {
            assert(self@.2 =~= other@.2);
        }
        true
    }

    /// A copy of this column, sharing its sections.
    pub fn copy(&self) -> (c: Chunk)
        ensures
            c@ == self@,
    {
        proof {
            use_type_invariant(self);
        }
        let mut sections: Vec<Arc<Section>> = Vec::new();
        let mut i: usize = 0;
        while i < self.sections.len()
            invariant
                i <= self.sections@.len(),
                sections@.len() == i,
                forall|j: int| 0 <= j < i ==> (#[trigger] sections@[j])@ == self.sections@[j]@,
            decreases self.sections@.len() - i,
        {
            sections.push(share(&self.sections[i]));
            i = i + 1;
        }
        proof {
            assert(sections_view(sections@) =~= sections_view(self.sections@));
        }
        Chunk { x: self.x, z: self.z, sections }
    }
}

impl Clone for Chunk {
    fn clone(&self) -> (c: Chunk)
        ensures
            c@ == self@,
    {
        self.copy()
    }
}

impl PartialEq for Chunk {
    fn eq(&self, other: &Chunk) -> (r: bool) {
        self.same(other)
    }
}

impl vstd::std_specs::cmp::PartialEqSpecImpl for Chunk {
    open spec fn obeys_eq_spec() -> bool {
        true
    }

    open spec fn eq_spec(&self, other: &Chunk) -> bool {
        self@ == other@
    }
}

impl Eq for Chunk {

}

} // verus!
