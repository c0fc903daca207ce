use bedrock::protocol::version::{MINECRAFT_VERSION, PROTOCOL_VERSION};
use bedrock::server::advertisement::advertisement;
use bedrock::blocks::{air, stone, Block};
use bedrock::protocol::batch::Packet;
use bedrock::protocol::bytes::Reader;
use bedrock::protocol::level_chunk::{
    block_offset, BIOME_PLAINS, BLOCKS_PER_SUBCHUNK, OVERWORLD_MAX_SUBCHUNK,
    OVERWORLD_MIN_SUBCHUNK, OVERWORLD_SUBCHUNKS, RUNTIME_ID_AIR, RUNTIME_ID_STONE,
};
use bedrock::server::columns::{column_packet, encode_section, subchunk_count};
use bedrock::server::stage::Stage;
use bedrock::world::chunk::{Chunk, MAX_SECTION, MIN_SECTION, MIN_Y, SECTION_COUNT};
use bedrock::world::section::Section;
use bedrock::world::world::World;

#[test]
fn the_world_and_the_wire_agree_on_the_shape_of_a_column() {
    assert_eq!(SECTION_COUNT, OVERWORLD_SUBCHUNKS);
    assert_eq!(MIN_SECTION, OVERWORLD_MIN_SUBCHUNK);
    assert_eq!(MAX_SECTION, OVERWORLD_MAX_SUBCHUNK);
}

/// Reads the header of a `LevelChunk` back: position, dimension, subchunk count.
fn header(packet: &Packet) -> (i32, i32, usize) {
    let mut r = Reader::new(&packet.body);
    let x = r.zigzag32().unwrap();
    let z = r.zigzag32().unwrap();
    assert_eq!(r.zigzag32().unwrap(), 0, "overworld");
    let count = r.varint().unwrap() as usize;
    (x, z, count)
}

#[test]
fn a_flat_column_declares_only_the_subchunks_that_hold_ground() {
    let mut world = World::flat(80);
    let packet = column_packet(world.chunk(2, -5), BIOME_PLAINS);
    assert_eq!(header(&packet), (2, -5, 9));
}

#[test]
fn an_empty_column_carries_no_subchunks() {
    let mut world = World::flat(MIN_Y);
    let packet = column_packet(world.chunk(0, 0), BIOME_PLAINS);
    assert_eq!(header(&packet), (0, 0, 0));
}

#[test]
fn uniform_sections_stay_uniform_on_the_wire() {
    let mut world = World::flat(80);
    let packet = column_packet(world.chunk(0, 0), BIOME_PLAINS);
    let (_, _, count) = header(&packet);

    let mut r = Reader::new(&packet.body);
    for _ in 0..3 {
        r.zigzag32().unwrap();
    }
    r.varint().unwrap();
    assert_eq!(r.u8().unwrap(), 0, "no blob hashes");
    let payload = r.prefixed().unwrap();

    let mut r = Reader::new(payload);
    for index in 0..count {
        assert_eq!(r.u8().unwrap(), 8, "version at {index}");
        assert_eq!(r.u8().unwrap(), 1, "layers at {index}");
        assert_eq!(r.u8().unwrap(), 1, "zero bits per block at {index}");
        let id = r.zigzag32().unwrap();
        let expected = if index < 9 { RUNTIME_ID_STONE } else { RUNTIME_ID_AIR };
        assert_eq!(id, expected, "block at subchunk {index}");
    }
}

#[test]
fn a_flat_column_is_nine_subchunks_of_stone_then_biomes() {
    let mut expected = Vec::new();
    for _ in 0..9 {
        expected.extend_from_slice(&[8, 1, 1]);
        expected.extend_from_slice(&[0xa4, 0x2a]);
    }
    for _ in 0..OVERWORLD_SUBCHUNKS {
        expected.extend_from_slice(&[1, 2]);
    }
    expected.push(0);

    let mut world = World::flat(80);
    let packet = column_packet(world.chunk(0, 0), BIOME_PLAINS);

    let mut r = Reader::new(&packet.body);
    for _ in 0..3 {
        r.zigzag32().unwrap();
    }
    assert_eq!(r.varint().unwrap(), 9, "subchunks declared");
    assert_eq!(r.u8().unwrap(), 0, "no blob hashes");
    assert_eq!(r.prefixed().unwrap(), expected.as_slice());
    assert!(r.is_empty(), "and nothing after the payload");
}

#[test]
fn a_section_with_two_blocks_in_it_carries_indices() {
    let section = Section::uniform(stone()).with_block(1, 2, 3, air()).unwrap();
    let encoded = encode_section(&section);

    assert_eq!(encoded.palette, vec![RUNTIME_ID_STONE, RUNTIME_ID_AIR]);
    let indices = encoded.indices.unwrap();
    assert_eq!(indices.len(), BLOCKS_PER_SUBCHUNK);
    assert_eq!(indices[block_offset(1, 2, 3)], 1, "the air block");
    assert_eq!(indices[block_offset(0, 0, 0)], 0, "and stone everywhere else");
}

#[test]
fn an_unknown_block_becomes_air() {
    let section = Section::uniform(Block::new("minecraft:sculk_shrieker"));
    assert_eq!(encode_section(&section).palette, vec![RUNTIME_ID_AIR]);
}

#[test]
fn the_subchunk_count_stops_at_the_highest_used_section() {
    assert_eq!(subchunk_count(&Chunk::empty(0, 0)), 0);
    let mut chunk = Chunk::empty(0, 0);
    chunk.set_block(0, -64, 0, stone());
    assert_eq!(subchunk_count(&chunk), 1);
    chunk.set_block(0, 319, 0, stone());
    assert_eq!(subchunk_count(&chunk), 24);
    assert!(encode_section(&Section::uniform(air())).indices.is_none());
}

#[test]
fn stages_parse_by_name_and_run_in_order() {
    assert_eq!(Stage::parse("start-game"), Some(Stage::StartGame));
    assert_eq!(Stage::parse("world"), Some(Stage::World));
    assert_eq!(Stage::parse("radius"), Some(Stage::Radius));
    assert_eq!(Stage::parse("chunks"), Some(Stage::Chunks));
    assert_eq!(Stage::parse("spawn"), Some(Stage::Spawn));
    assert_eq!(Stage::parse("Spawn"), None);
    assert!(Stage::StartGame < Stage::Spawn);
}

#[test]
fn the_advertisement_carries_the_target_version() {
    let text = advertisement("test", 0, 10, 19132, 7);
    let fields: Vec<&str> = text.split(';').collect();
    assert_eq!(fields[0], "MCPE");
    assert_eq!(fields[2], PROTOCOL_VERSION.map(|v| v.to_string()).unwrap_or_default());
    assert_eq!(fields[3], MINECRAFT_VERSION.unwrap_or_default());
}

#[test]
fn the_advertisement_lists_every_field_in_order() {
    assert_eq!(
        advertisement("test", 0, 10, 19132, 7),
        format!(
            "MCPE;test;{};{};0;10;7;;Survival;1;19132;19132;",
            PROTOCOL_VERSION.map(|v| v.to_string()).unwrap_or_default(),
            MINECRAFT_VERSION.unwrap_or_default()
        )
    );
    assert!(advertisement("x", 1, 2, 3, -4).contains(";-4;;Survival;1;3;3;"));
}
