use std::sync::Arc;

use bedrock::blocks::{air, stone};
use bedrock::world::chunk::{
    section_index, section_offset, Chunk, MAX_Y, MIN_SECTION, MIN_Y, SECTION_COUNT,
};
use bedrock::world::generator::Flat;
use bedrock::world::section::{offset, Section, BLOCKS_PER_SECTION, SECTION_SIZE};
use bedrock::world::world::{chunk_of, local_of, World};

#[test]
fn a_uniform_section_is_that_block_everywhere() {
    let section = Section::uniform(stone());
    assert_eq!(section.uniform_block(), Some(&stone()));
    for (x, y, z) in [(0, 0, 0), (15, 15, 15), (3, 9, 12)] {
        assert_eq!(section.get(x, y, z), Some(&stone()), "at {x},{y},{z}");
    }
}

#[test]
fn a_position_outside_the_cube_is_none_not_a_panic() {
    let section = Section::uniform(stone());
    assert_eq!(section.get(16, 0, 0), None);
    assert_eq!(section.get(0, 99, 0), None);
    assert!(section.with_block(0, 0, 16, air()).is_none());
}

#[test]
fn writing_leaves_the_original_alone() {
    let before = Section::uniform(stone());
    let after = before.with_block(1, 2, 3, air()).unwrap();

    assert_eq!(before.get(1, 2, 3), Some(&stone()), "the original is frozen");
    assert_eq!(after.get(1, 2, 3), Some(&air()));
    assert_eq!(after.get(0, 0, 0), Some(&stone()), "and only one block moved");
}

#[test]
fn every_position_is_its_own_slot() {
    let mut seen = std::collections::HashSet::new();
    for x in 0..SECTION_SIZE {
        for y in 0..SECTION_SIZE {
            for z in 0..SECTION_SIZE {
                assert!(seen.insert(offset(x, y, z).unwrap()), "{x},{y},{z} repeats");
            }
        }
    }
    assert_eq!(seen.len(), BLOCKS_PER_SECTION);
}

#[test]
fn writing_the_same_block_back_changes_nothing() {
    let section = Section::uniform(stone());
    let again = section.with_block(4, 4, 4, stone()).unwrap();
    assert_eq!(again.palette(), section.palette());
    assert_eq!(again.get(4, 4, 4), Some(&stone()));
}

#[test]
fn the_palette_grows_only_for_new_blocks() {
    let section = Section::uniform(stone());
    let one = section.with_block(0, 0, 0, air()).unwrap();
    assert_eq!(one.palette().len(), 2);

    let two = one.with_block(1, 0, 0, air()).unwrap();
    assert_eq!(two.palette().len(), 2, "air was already in the palette");
    assert_eq!(two.get(1, 0, 0), Some(&air()));
}

#[test]
fn building_by_position_keeps_every_block_where_it_was_put() {
    let half = Section::from_fn(|_, y, _| if y < 8 { stone() } else { air() });
    assert_eq!(half.palette().len(), 2);
    assert_eq!(half.get(0, 7, 0), Some(&stone()));
    assert_eq!(half.get(15, 8, 15), Some(&air()));
    assert_eq!(half.uniform_block(), None);
}

#[test]
fn building_one_block_everywhere_stays_uniform() {
    let section = Section::from_fn(|_, _, _| stone());
    assert_eq!(section.uniform_block(), Some(&stone()));
    assert_eq!(section, Section::uniform(stone()));
}

#[test]
fn a_section_of_air_is_empty_and_one_of_stone_is_not() {
    assert!(Section::uniform(air()).is_empty());
    assert!(!Section::uniform(stone()).is_empty());

    let mixed = Section::uniform(air()).with_block(0, 0, 0, stone()).unwrap();
    assert!(!mixed.is_empty());
}

#[test]
fn offsets_cover_the_cube_and_index_the_palette() {
    assert_eq!(offset(0, 0, 0), Some(0));
    assert_eq!(offset(15, 15, 15), Some(4095));
    assert_eq!(offset(0, 16, 0), None);
    let mixed = Section::uniform(air()).with_block(2, 3, 4, stone()).unwrap();
    assert_eq!(mixed.index_at(2, 3, 4), Some(1));
    assert_eq!(mixed.index_at(0, 0, 0), Some(0));
    assert_eq!(Section::uniform(air()).index_at(0, 0, 0), Some(0));
    assert_eq!(mixed.index_at(16, 0, 0), None);
}

#[test]
fn the_overworld_is_twenty_four_sections_tall() {
    assert_eq!(SECTION_COUNT, 24);
    assert_eq!(MIN_Y, -64);
    assert_eq!(MAX_Y, 320);
}

#[test]
fn negative_heights_round_down() {
    assert_eq!(section_index(0), 0);
    assert_eq!(section_index(15), 0);
    assert_eq!(section_index(-1), -1);
    assert_eq!(section_index(-64), -4);
    assert_eq!(section_offset(-1), 15);
    assert_eq!(section_offset(-64), 0);
}

#[test]
fn an_empty_column_is_air_from_floor_to_ceiling() {
    let chunk = Chunk::empty(3, -7);
    assert_eq!(chunk.position(), (3, -7));
    assert_eq!(chunk.highest_used_section(), None);
    for y in [MIN_Y, 0, 80, MAX_Y - 1] {
        assert_eq!(chunk.block_at(0, y, 0), Some(&air()), "at y={y}");
    }
}

#[test]
fn outside_the_column_reads_nothing_and_writes_nothing() {
    let mut chunk = Chunk::empty(0, 0);
    assert_eq!(chunk.block_at(0, MAX_Y, 0), None);
    assert_eq!(chunk.block_at(0, MIN_Y - 1, 0), None);
    assert!(!chunk.set_block(0, MAX_Y, 0, stone()));
    assert!(!chunk.set_block(16, 0, 0, stone()));
}

#[test]
fn a_written_block_reads_back() {
    let mut chunk = Chunk::empty(0, 0);
    assert!(chunk.set_block(5, -33, 9, stone()));
    assert_eq!(chunk.block_at(5, -33, 9), Some(&stone()));
    assert_eq!(chunk.block_at(5, -32, 9), Some(&air()), "only that one block");
    assert_eq!(chunk.highest_used_section(), Some(section_index(-33)));
}

#[test]
fn writing_one_block_leaves_the_other_sections_shared() {
    let mut chunk = Chunk::empty(0, 0);
    let untouched = Arc::clone(&chunk.sections()[0]);
    chunk.set_block(0, 200, 0, stone());
    assert!(Arc::ptr_eq(&untouched, &chunk.sections()[0]));
}

#[test]
fn a_snapshot_survives_a_later_write() {
    let mut chunk = Chunk::empty(0, 0);
    let snapshot = Arc::clone(chunk.section(section_index(64)).unwrap());
    chunk.set_block(1, 64, 1, stone());

    assert_eq!(snapshot.get(1, section_offset(64), 1), Some(&air()));
    assert_eq!(chunk.block_at(1, 64, 1), Some(&stone()));
}

#[test]
fn a_column_taller_than_the_dimension_is_refused() {
    let stone = Arc::new(Section::uniform(stone()));
    let sections = vec![stone; SECTION_COUNT + 1];
    assert!(Chunk::from_sections(0, 0, sections).is_none());
}

#[test]
fn a_short_column_is_padded_with_air() {
    let stone_section = Arc::new(Section::uniform(stone()));
    let sections = vec![stone_section; 2];
    let chunk = Chunk::from_sections(0, 0, sections).unwrap();
    assert_eq!(chunk.sections().len(), SECTION_COUNT);
    assert_eq!(chunk.block_at(0, MIN_Y, 0), Some(&stone()));
    assert_eq!(chunk.block_at(0, MAX_Y - 1, 0), Some(&air()));
    assert_eq!(chunk.highest_used_section(), Some(MIN_SECTION + 1));
}

#[test]
fn the_surface_is_the_first_air_block() {
    let flat = Flat::new(80);
    let chunk = flat.generate(0, 0);

    assert_eq!(chunk.block_at(0, 79, 0), Some(&stone()), "ground");
    assert_eq!(chunk.block_at(0, 80, 0), Some(&air()), "where the feet go");
    assert_eq!(chunk.block_at(0, 81, 0), Some(&air()));
    assert_eq!(chunk.block_at(0, MIN_Y, 0), Some(&stone()), "solid to the floor");
}

#[test]
fn a_surface_inside_a_section_cuts_it() {
    let flat = Flat::new(70);
    let chunk = flat.generate(0, 0);

    assert_eq!(chunk.block_at(9, 69, 4), Some(&stone()));
    assert_eq!(chunk.block_at(9, 70, 4), Some(&air()));
    assert_eq!(chunk.highest_used_section(), Some(section_index(69)));
}

#[test]
fn a_surface_on_a_boundary_needs_no_cut_section() {
    let flat = Flat::new(64);
    let chunk = flat.generate(0, 0);

    assert_eq!(chunk.block_at(0, 63, 0), Some(&stone()));
    assert_eq!(chunk.block_at(0, 64, 0), Some(&air()));
    assert_eq!(chunk.highest_used_section(), Some(3));

    let cut = chunk.section(3).unwrap();
    assert_eq!(cut.uniform_block(), Some(&stone()), "no partial section needed");
}

#[test]
fn columns_share_their_sections() {
    let flat = Flat::new(80);
    let one = flat.generate(0, 0);
    let far = flat.generate(1000, -1000);

    for (a, b) in one.sections().iter().zip(far.sections()) {
        assert!(Arc::ptr_eq(a, b));
    }
    assert_eq!(far.position(), (1000, -1000));
}

#[test]
fn a_world_with_no_ground_is_all_air() {
    let flat = Flat::new(MIN_Y);
    let chunk = flat.generate(0, 0);
    assert_eq!(chunk.highest_used_section(), None);
    assert_eq!(chunk.block_at(0, MIN_Y, 0), Some(&air()));
}

#[test]
fn the_ground_is_solid_all_the_way_down_and_the_sky_all_the_way_up() {
    let flat = Flat::new(80);
    let chunk = flat.generate(0, 0);
    for y in MIN_Y..MAX_Y {
        let expected = if y < 80 { stone() } else { air() };
        assert_eq!(chunk.block_at(7, y, 7), Some(&expected), "y={y}");
    }
}

#[test]
fn a_column_is_generated_once_and_then_kept() {
    let mut world = World::flat(80);
    assert_eq!(world.loaded(), 0);
    assert_eq!(world.loaded_chunk(0, 0), None);

    world.chunk(0, 0);
    world.chunk(0, 0);
    assert_eq!(world.loaded(), 1);
    assert!(world.loaded_chunk(0, 0).is_some());
}

#[test]
fn a_change_survives_asking_for_the_column_again() {
    let mut world = World::flat(80);
    assert!(world.set_block(20, 80, -3, stone()));

    assert_eq!(world.block_at(20, 80, -3), Some(&stone()));
    assert_eq!(world.block_at(21, 80, -3), Some(&air()), "and nothing else");
}

#[test]
fn unloading_a_column_puts_the_generated_world_back() {
    let mut world = World::flat(80);
    world.set_block(0, 80, 0, stone());

    assert!(world.unload(0, 0));
    assert!(!world.unload(0, 0), "it is gone, not gone twice");

    assert_eq!(world.block_at(0, 80, 0), Some(&air()));
    assert_eq!(world.loaded(), 1);
}

#[test]
fn negative_positions_belong_to_the_column_below() {
    assert_eq!(chunk_of(-1, -16), (-1, -1));
    assert_eq!(local_of(-1, -16), (15, 0));
    assert_eq!(chunk_of(16, 31), (1, 1));
    assert_eq!(local_of(16, 31), (0, 15));

    let mut world = World::flat(80);
    world.set_block(-1, 80, -16, stone());
    assert_eq!(
        world.loaded_chunk(-1, -1).unwrap().block_at(15, 80, 0),
        Some(&stone())
    );
}

#[test]
fn the_generated_world_is_the_flat_one() {
    let mut world = World::flat(80);
    assert_eq!(world.surface_height(), 80);
    assert_eq!(world.block_at(100, 79, -100), Some(&stone()));
    assert_eq!(world.block_at(100, 80, -100), Some(&air()));
}

#[test]
fn a_write_outside_the_height_is_refused_and_changes_nothing() {
    let mut world = World::flat(80);
    assert!(!world.set_block(0, MAX_Y, 0, stone()));
    assert!(!world.set_block(0, MIN_Y - 1, 0, stone()));
    assert_eq!(world.block_at(0, MAX_Y, 0), None);
    assert_eq!(Flat::new(12).surface_height(), 12);
}
