use bedrock::protocol::bytes::Reader;
use bedrock::protocol::level_chunk::{
    block_offset, column_payload, columns_around, flat_column, level_chunk, publisher_update,
    subchunks_up_to, void_column, Subchunk, BIOME_PLAINS, ID_LEVEL_CHUNK,
    ID_NETWORK_CHUNK_PUBLISHER_UPDATE, OVERWORLD_MIN_SUBCHUNK, OVERWORLD_SUBCHUNKS,
    RUNTIME_ID_AIR, RUNTIME_ID_STONE,
};

#[test]
fn the_overworld_spans_twenty_four_subchunks() {
    assert_eq!(OVERWORLD_SUBCHUNKS, 24);
}

#[test]
fn a_void_column_is_biomes_and_a_border_count() {
    let payload = void_column(BIOME_PLAINS);
    assert_eq!(payload.len(), OVERWORLD_SUBCHUNKS * 2 + 1);
    assert_eq!(*payload.last().unwrap(), 0, "border block count");
}

#[test]
fn every_subchunk_carries_the_biome() {
    let payload = void_column(BIOME_PLAINS);
    let mut r = Reader::new(&payload);
    for index in 0..OVERWORLD_SUBCHUNKS {
        assert_eq!(r.u8().unwrap(), 1, "header at {index}");
        assert_eq!(r.zigzag32().unwrap(), BIOME_PLAINS, "biome at {index}");
    }
    assert_eq!(r.u8().unwrap(), 0);
    assert!(r.is_empty());
}

#[test]
fn a_void_column_declares_no_subchunks() {
    let packet = level_chunk(0, 0, 0, &void_column(BIOME_PLAINS));
    let mut r = Reader::new(&packet.body);
    r.zigzag32().unwrap();
    r.zigzag32().unwrap();
    r.zigzag32().unwrap();
    assert_eq!(r.varint().unwrap(), 0);
}

#[test]
fn reaching_a_surface_means_writing_everything_below_it() {
    assert_eq!(subchunks_up_to(-64), 1, "just the bottom one");
    assert_eq!(subchunks_up_to(0), 5, "-64..0 is five subchunks");
    assert_eq!(subchunks_up_to(80), 10);
}

#[test]
fn a_uniform_subchunk_costs_a_header_and_one_id() {
    let count = subchunks_up_to(80);
    let payload = flat_column(BIOME_PLAINS, 80);
    let blocks = payload.len() - (OVERWORLD_SUBCHUNKS * 2 + 1);

    assert!(blocks >= count * 4, "at least a header and one byte each");
    assert!(blocks <= count * 8, "and nowhere near a word array");
}

#[test]
fn the_surface_is_where_stone_stops() {
    let payload = flat_column(BIOME_PLAINS, 80);
    let mut r = Reader::new(&payload);

    for index in 0..subchunks_up_to(80) {
        assert_eq!(r.u8().unwrap(), 8, "version at {index}");
        assert_eq!(r.u8().unwrap(), 1, "layers at {index}");
        assert_eq!(r.u8().unwrap(), 1, "zero bits per block at {index}");

        let y = OVERWORLD_MIN_SUBCHUNK + index as i32;
        let expected = if y < 5 { RUNTIME_ID_STONE } else { RUNTIME_ID_AIR };
        assert_eq!(r.zigzag32().unwrap(), expected, "block at subchunk {y}");
    }
}

#[test]
fn level_chunk_air_is_not_block_zero() {
    assert_ne!(RUNTIME_ID_AIR, 0);
    assert_ne!(RUNTIME_ID_AIR, RUNTIME_ID_STONE);
}

#[test]
fn the_declared_count_matches_the_payload() {
    let count = subchunks_up_to(80);
    let packet = level_chunk(0, 0, count, &flat_column(BIOME_PLAINS, 80));

    let mut r = Reader::new(&packet.body);
    r.zigzag32().unwrap();
    r.zigzag32().unwrap();
    r.zigzag32().unwrap();
    assert_eq!(r.varint().unwrap() as usize, count);
}

#[test]
fn a_column_round_trips_its_position() {
    for (x, z) in [(0, 0), (-1, 5), (100, -100)] {
        let packet = level_chunk(x, z, 0, b"payload");
        assert_eq!(packet.id, ID_LEVEL_CHUNK);

        let mut r = Reader::new(&packet.body);
        assert_eq!(r.zigzag32().unwrap(), x);
        assert_eq!(r.zigzag32().unwrap(), z);
        assert_eq!(r.zigzag32().unwrap(), 0, "overworld");
        r.varint().unwrap();
        assert_eq!(r.u8().unwrap(), 0, "no blob hashes");
        assert_eq!(r.prefixed().unwrap(), b"payload");
    }
}

#[test]
fn the_publisher_update_carries_its_centre_and_radius() {
    let packet = publisher_update(0, 70, 0, 4);
    assert_eq!(packet.id, ID_NETWORK_CHUNK_PUBLISHER_UPDATE);

    let mut r = Reader::new(&packet.body);
    assert_eq!(r.zigzag32().unwrap(), 0);
    assert_eq!(r.zigzag32().unwrap(), 70);
    assert_eq!(r.zigzag32().unwrap(), 0);
    assert_eq!(r.varint().unwrap(), 4);
    assert_eq!(r.u32().unwrap(), 0, "no saved chunks");
}

#[test]
fn a_radius_covers_the_square_around_its_centre() {
    assert_eq!(columns_around(0, 0, 0), vec![(0, 0)]);
    assert_eq!(columns_around(0, 0, 1).len(), 9);
    assert_eq!(columns_around(0, 0, 4).len(), 81);
    assert!(columns_around(5, -3, 2).contains(&(5, -3)));
    assert!(columns_around(0, 0, -1).is_empty());
}

#[test]
fn block_offsets_run_x_then_z_then_y() {
    assert_eq!(block_offset(0, 0, 0), 0);
    assert_eq!(block_offset(0, 1, 0), 1);
    assert_eq!(block_offset(0, 0, 1), 16);
    assert_eq!(block_offset(1, 0, 0), 256);
    assert_eq!(block_offset(15, 15, 15), 4095);
}

#[test]
fn a_uniform_view_is_written_without_indices() {
    let palette = [RUNTIME_ID_STONE];
    let views = [Subchunk {
        palette: &palette,
        indices: None,
    }];
    let payload = column_payload(&views, BIOME_PLAINS);
    let mut r = Reader::new(&payload);
    assert_eq!(r.u8().unwrap(), 8);
    assert_eq!(r.u8().unwrap(), 1);
    assert_eq!(r.u8().unwrap(), 1);
    assert_eq!(r.zigzag32().unwrap(), RUNTIME_ID_STONE);
    for _ in 0..OVERWORLD_SUBCHUNKS {
        assert_eq!(r.u8().unwrap(), 1);
        assert_eq!(r.zigzag32().unwrap(), BIOME_PLAINS);
    }
    assert_eq!(r.u8().unwrap(), 0);
    assert!(r.is_empty());
}

/// A surface that does not fall on a subchunk boundary cuts through a subchunk: stone
/// below the surface and air from it up, in the same subchunk.
#[test]
fn a_surface_inside_a_subchunk_is_stone_below_and_air_above() {
    let payload = flat_column(BIOME_PLAINS, 85);
    // Nine uniform stone subchunks of five bytes each, from y = -64 up to y = 80.
    let stone = [8u8, 1, 1, 0xa4, 0x2a];
    for k in 0..9 {
        assert_eq!(&payload[k * 5..k * 5 + 5], &stone[..]);
    }
    // Then the subchunk holding y = 80..96: sixteen-bit indices over two entries.
    assert_eq!(&payload[45..48], &[8u8, 1, 33][..]);
    let index = |offset: usize| {
        let at = 48 + offset * 2;
        u16::from_le_bytes([payload[at], payload[at + 1]])
    };
    for x in 0..16 {
        for z in 0..16 {
            for y in 0..16 {
                let expected = if y < 5 { 0 } else { 1 };
                assert_eq!(index(block_offset(x, y, z)), expected, "({x}, {y}, {z})");
            }
        }
    }
}
