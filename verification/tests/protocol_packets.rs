use bedrock::blocks::{air, stone, Block, Value};
use bedrock::protocol::bytes::{Reader, Writer};
use bedrock::protocol::palette::{runtime_id, RUNTIME_ID_AIR, RUNTIME_ID_STONE};
use bedrock::protocol::play_status::{decode, encode, packet, Status, ID_PLAY_STATUS};
use bedrock::protocol::registries::{
    all_empty, empty_actor_identifiers, empty_biome_definitions, empty_item_registry,
    ID_AVAILABLE_ACTOR_IDENTIFIERS, ID_BIOME_DEFINITION_LIST, ID_ITEM_REGISTRY,
};
use bedrock::protocol::resource_packs::{
    decode_response, pack_stack_empty, packs_info_empty, Response, ID_RESOURCE_PACKS_INFO,
    ID_RESOURCE_PACK_STACK,
};

#[test]
fn the_two_blocks_a_flat_world_needs_have_ids() {
    assert_eq!(runtime_id(&air()), Some(RUNTIME_ID_AIR));
    assert_eq!(runtime_id(&stone()), Some(RUNTIME_ID_STONE));
}

#[test]
fn palette_air_is_not_block_zero() {
    assert_ne!(RUNTIME_ID_AIR, 0);
    assert_ne!(RUNTIME_ID_AIR, RUNTIME_ID_STONE);
}

#[test]
fn a_block_this_version_does_not_know_is_not_guessed_at() {
    assert_eq!(runtime_id(&Block::new("minecraft:diamond_block")), None);
}

#[test]
fn a_state_with_properties_is_refused_rather_than_approximated() {
    let stair = Block::with_properties(
        "minecraft:stone",
        vec![("upside_down_bit".into(), Value::Bool(true))],
    );
    assert_eq!(runtime_id(&stair), None);
}

const ALL: [Status; 8] = [
    Status::LoginSuccess,
    Status::ClientOutdated,
    Status::ServerOutdated,
    Status::PlayerSpawn,
    Status::InvalidTenant,
    Status::EducationToVanilla,
    Status::VanillaToEducation,
    Status::ServerFullForSubClient,
];

#[test]
fn every_status_round_trips() {
    for status in ALL {
        assert_eq!(decode(&encode(status)).unwrap(), Some(status), "{status:?}");
    }
}

#[test]
fn the_body_is_a_big_endian_int32() {
    assert_eq!(encode(Status::PlayerSpawn), vec![0x00, 0x00, 0x00, 0x03]);
}

#[test]
fn a_status_we_do_not_know_decodes_to_none() {
    let mut w = Writer::new();
    w.u32_be(99);
    assert_eq!(decode(&w.finish()).unwrap(), None);
}

#[test]
fn a_mismatch_names_the_side_that_is_behind() {
    assert_eq!(Status::for_version_mismatch(1001, 1001), None);
    assert_eq!(
        Status::for_version_mismatch(975, 1001),
        Some(Status::ClientOutdated)
    );
    assert_eq!(
        Status::for_version_mismatch(1002, 1001),
        Some(Status::ServerOutdated)
    );
}

#[test]
fn play_status_the_packet_carries_the_right_id() {
    assert_eq!(packet(Status::LoginSuccess).id, ID_PLAY_STATUS);
}

#[test]
fn a_truncated_body_fails_cleanly() {
    assert!(decode(&[0, 0]).is_err());
    assert!(decode(&[]).is_err());
}

#[test]
fn status_values_are_the_documented_numbers() {
    let values: Vec<i32> = ALL.iter().map(|s| s.value()).collect();
    assert_eq!(values, vec![0, 1, 2, 3, 4, 5, 6, 7]);
    assert_eq!(Status::from_value(7), Some(Status::ServerFullForSubClient));
    assert_eq!(Status::from_value(-1), None);
}

#[test]
fn an_empty_item_registry_is_one_byte() {
    let packet = empty_item_registry();
    assert_eq!(packet.id, ID_ITEM_REGISTRY);
    assert_eq!(packet.body, vec![0]);
}

#[test]
fn actor_identifiers_are_a_bare_compound() {
    let packet = empty_actor_identifiers();
    assert_eq!(packet.id, ID_AVAILABLE_ACTOR_IDENTIFIERS);
    assert_eq!(packet.body, vec![0x0a, 0x00, 0x00]);
}

#[test]
fn biome_definitions_carry_two_empty_lists() {
    let packet = empty_biome_definitions();
    assert_eq!(packet.id, ID_BIOME_DEFINITION_LIST);

    let mut r = Reader::new(&packet.body);
    assert_eq!(r.varint().unwrap(), 0, "definitions");
    assert_eq!(r.varint().unwrap(), 0, "strings");
    assert!(r.is_empty());
}

#[test]
fn they_go_out_in_the_order_a_real_server_uses() {
    let ids: Vec<u32> = all_empty().iter().map(|p| p.id).collect();
    assert_eq!(
        ids,
        vec![
            ID_ITEM_REGISTRY,
            ID_AVAILABLE_ACTOR_IDENTIFIERS,
            ID_BIOME_DEFINITION_LIST
        ]
    );
}

#[test]
fn every_response_round_trips() {
    for (value, expected) in [
        (0, Response::Cancel),
        (1, Response::Downloading),
        (2, Response::DownloadingFinished),
        (3, Response::StackFinished),
    ] {
        assert_eq!(decode_response(&[value]).unwrap(), Some(expected));
    }
}

#[test]
fn a_response_we_do_not_know_decodes_to_none() {
    assert_eq!(decode_response(&[9]).unwrap(), None);
}

#[test]
fn an_empty_response_body_fails_cleanly() {
    assert!(decode_response(&[]).is_err());
}

#[test]
fn packs_info_has_the_shape_the_schema_describes() {
    let packet = packs_info_empty();
    assert_eq!(packet.id, ID_RESOURCE_PACKS_INFO);
    assert_eq!(packet.body.len(), 4 + 16 + 1 + 2);
    assert!(
        packet.body[..4].iter().all(|&b| b == 0),
        "nothing is required or present"
    );
}

#[test]
fn the_stack_carries_the_base_game_version() {
    let packet = pack_stack_empty("1.26.30");
    assert_eq!(packet.id, ID_RESOURCE_PACK_STACK);

    let mut r = Reader::new(&packet.body);
    assert_eq!(r.u8().unwrap(), 0, "not required");
    assert_eq!(r.varint().unwrap(), 0, "no packs");
    assert_eq!(r.prefixed().unwrap(), b"1.26.30");
}

#[test]
fn the_stack_declares_no_experiments() {
    let packet = pack_stack_empty("*");
    let mut r = Reader::new(&packet.body);
    r.u8().unwrap();
    r.varint().unwrap();
    r.prefixed().unwrap();
    assert_eq!(r.u32().unwrap(), 0, "no toggles, as a fixed u32");
    assert_eq!(r.u8().unwrap(), 0, "never toggled");
    assert_eq!(r.u8().unwrap(), 0, "no editor packs");
    assert!(r.is_empty());
}
