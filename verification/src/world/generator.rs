//! World generation. M0 has exactly one generator: flat.
//!
//! A flat world is stone up to a surface height and air above it. Every column is the
//! same, so the sections are built once and shared by every column generated.
use crate::blocks::{air, air_name, stone, stone_name, Block, BlockView, PropertyView};
use crate::world::chunk::{column_block, share, Chunk, ChunkView, MAX_SECTION, MIN_SECTION, SECTION_COUNT};
use crate::world::section::{blocks_of, built_by, in_section, offset_of, Section, SectionView, SECTION_SIZE};
use std::sync::Arc;
use vstd::prelude::*;

verus! {

/// `minecraft:air` as the contracts see it.
pub open spec fn air_view() -> BlockView {
    (air_name(), Seq::<PropertyView>::empty())
}

/// `minecraft:stone` as the contracts see it.
pub open spec fn stone_view() -> BlockView {
    (stone_name(), Seq::<PropertyView>::empty())
}

/// The block a flat world with its surface at `surface_height` has at world height `y`:
/// stone below the surface, air from it up.
pub open spec fn flat_block(surface_height: int, y: int) -> BlockView {
    if y < surface_height {
        stone_view()
    } else {
        air_view()
    }
}

/// What a flat column holds at a position relative to it: the flat block inside the
/// column, nothing outside it.
pub open spec fn flat_column_block(surface_height: int, x: int, y: int, z: int) -> Option<BlockView> {
    if 0 <= x < 16 && 0 <= z < 16 && -64 <= y < 320 {
        Some(flat_block(surface_height, y))
    } else {
        None
    }
}

/// Whether the section in slot `slot` of a flat column is what it should be.
pub open spec fn flat_section(surface_height: int, slot: int, s: SectionView) -> bool {
    forall|x: int, y: int, z: int|
        in_section(x, y, z) ==> #[trigger] blocks_of(s)[offset_of(x, y, z)] == flat_block(
            surface_height,
            (slot + MIN_SECTION) * 16 + y,
        )
}

/// The flat generator.
#[derive(Debug)]
pub struct Flat {
    surface_height: i32,
    template: Vec<Arc<Section>>,
}

/// A section that is stone below `height` and air from it up.
fn cut_section(height: i32) -> (s: Section)
    ensures
        forall|x: int, y: int, z: int|
            in_section(x, y, z) ==> #[trigger] blocks_of(s@)[offset_of(x, y, z)] == (if y < height {
                stone_view()
            } else {
                air_view()
            }),
{
    let h: usize = if height < 0 {
        0
    } else if height > SECTION_SIZE as i32 {
        SECTION_SIZE
    } else {
        height as usize
    };
    let f = |x: usize, y: usize, z: usize| -> (b: Block)
        ensures
            b@ == (if y < h {
                stone_view()
            } else {
                air_view()
            }),
        {
            if y < h {
                stone()
            } else {
                air()
            }
        };
    let s = Section::from_fn(f);
    proof {
        assert forall|x: int, y: int, z: int| in_section(x, y, z) implies #[trigger] blocks_of(s@)[offset_of(
            x,
            y,
            z,
        )] == (if y < height {
            stone_view()
        } else {
            air_view()
        }) by {
            assert(built_by(f, s@, x as usize, y as usize, z as usize));
        }
    }
    s
}

impl Flat {
    #[verifier::type_invariant]
    closed spec fn well_formed(self) -> bool {
        &&& self.template@.len() == 24
        &&& forall|slot: int| 0 <= slot < 24 ==> flat_section(self.surface_height as int, slot, #[trigger] self.template@[slot]@)
    }

    /// A flat world whose first air block is at `surface_height`: stone at
    /// `surface_height - 1` and everything below, down to the bottom of the world.
    pub fn new(surface_height: i32) -> (f: Self)
        ensures
            f.surface_height() == surface_height,
    {
        let stone_arc = Arc::new(Section::uniform(stone()));
        let air_arc = Arc::new(Section::uniform(air()));
        let ghost h = surface_height as int;
        let mut template: Vec<Arc<Section>> = Vec::new();
        let mut index: i32 = MIN_SECTION;
        while index <= MAX_SECTION
            invariant
                MIN_SECTION <= index <= MAX_SECTION + 1,
                h == surface_height,
                template@.len() == index - MIN_SECTION,
                blocks_of(stone_arc@) == Seq::new(4096, |i: int| stone_view()),
                blocks_of(air_arc@) == Seq::new(4096, |i: int| air_view()),
                forall|slot: int| 0 <= slot < template@.len() ==> flat_section(h, slot, #[trigger] template@[slot]@),
            decreases MAX_SECTION + 1 - index,
        {
            let bottom = index * 16;
            let top = bottom + 16;
            let section = if top <= surface_height {
                share(&stone_arc)
            } else if bottom >= surface_height {
                share(&air_arc)
            } else {
                Arc::new(cut_section(surface_height - bottom))
            };
            proof {
                let slot = index - MIN_SECTION;
                assert forall|x: int, y: int, z: int| in_section(x, y, z) implies #[trigger] blocks_of(section@)[offset_of(
                    x,
                    y,
                    z,
                )] == flat_block(h, (slot + MIN_SECTION) * 16 + y) by {
                    assert(0 <= offset_of(x, y, z) < 4096);
                }
            }
            template.push(section);
            index = index + 1;
        }
        Flat { surface_height, template }
    }

    /// The height of the first air block.
    pub closed spec fn surface_height_spec(&self) -> i32 {
        self.surface_height
    }

    /// The height of the first air block.
    #[verifier::when_used_as_spec(surface_height_spec)]
    pub fn surface_height(&self) -> (h: i32)
        ensures
            h == self.surface_height_spec(),
    {
        self.surface_height
    }

    /// The column at chunk position `(x, z)`. Every column shares the same sections.
    pub fn generate(&self, x: i32, z: i32) -> (c: Chunk)
        ensures
            c@.0 == x,
            c@.1 == z,
            forall|bx: int, by: int, bz: int|
                #[trigger] column_block(c@, bx, by, bz) == flat_column_block(self.surface_height_spec() as int, bx, by, bz),
    {
        proof {
            use_type_invariant(self);
        }
        let mut sections: Vec<Arc<Section>> = Vec::new();
        let mut i: usize = 0;
        while i < self.template.len()
            invariant
                i <= self.template@.len(),
                sections@.len() == i,
                forall|j: int| 0 <= j < i ==> (#[trigger] sections@[j])@ == self.template@[j]@,
            decreases self.template@.len() - i,
        {
            sections.push(share(&self.template[i]));
            i = i + 1;
        }
        match Chunk::from_sections(x, z, sections) {
            Some(c) => {
                proof {
                    let h = self.surface_height as int;
                    assert forall|bx: int, by: int, bz: int| #[trigger] column_block(c@, bx, by, bz)
                        == flat_column_block(h, bx, by, bz) by {
                        if 0 <= bx < 16 && 0 <= bz < 16 && -64 <= by < 320 {
                            let slot = by / 16 - MIN_SECTION;
                            assert(0 <= slot < 24);
                            assert(c@.2[slot] == self.template@[slot]@);
                            assert(flat_section(h, slot, self.template@[slot]@));
                            assert(blocks_of(c@.2[slot])[offset_of(bx, by % 16, bz)] == flat_block(
                                h,
                                (slot + MIN_SECTION) * 16 + by % 16,
                            ));
                        }
                    }
                }
                c
            },
            None => Chunk::empty(x, z),
        }
    }
}

} // verus!
