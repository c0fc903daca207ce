use bedrock::protocol::bytes::{DecodeError, Reader, Writer};
use bedrock::protocol::player::{decode_auth_input, AuthInput};
use bedrock::protocol::start_game::{GameType, Generator, StartGame, ID_START_GAME, SPAWN_HEIGHT_BITS};

fn sample() -> StartGame {
    StartGame::flat("test world", "1.26.30", "bedrock-runtime")
}

const EMPTY_NBT: [u8; 3] = [0x0a, 0x00, 0x00];

#[test]
fn start_game_the_packet_carries_the_right_id() {
    assert_eq!(sample().packet().id, ID_START_GAME);
}

/// Getting the first three fields wrong shifts everything after them.
#[test]
fn the_head_decodes_field_by_field() {
    let body = sample().encode();
    let mut r = Reader::new(&body);

    assert_eq!(r.zigzag64().unwrap(), 1, "entity id");
    assert_eq!(r.varint64().unwrap(), 1, "runtime id");
    assert_eq!(r.zigzag32().unwrap(), GameType::Creative as i32);

    assert!((f32::from_bits(r.f32_bits().unwrap()) - 0.0).abs() < f32::EPSILON, "x");
    assert!((f32::from_bits(r.f32_bits().unwrap()) - 70.0).abs() < f32::EPSILON, "y");
    assert!((f32::from_bits(r.f32_bits().unwrap()) - 0.0).abs() < f32::EPSILON, "z");
}

/// The spawn biome is a fixed u16 and the dimension a varint.
#[test]
fn the_spawn_settings_mix_fixed_and_varint() {
    let body = sample().encode();
    let mut r = Reader::new(&body);
    r.zigzag64().unwrap();
    r.varint64().unwrap();
    r.zigzag32().unwrap();
    for _ in 0..5 {
        r.f32_bits().unwrap();
    }
    assert_eq!(r.varint64().unwrap() & 0xff, 0, "seed low byte");
}

#[test]
fn the_world_name_and_versions_survive() {
    let body = StartGame::flat("meu mundo", "1.26.30", "bedrock-runtime").encode();
    let text = String::from_utf8_lossy(&body);
    assert!(text.contains("meu mundo"));
    assert!(text.contains("1.26.30"));
    assert!(text.contains("bedrock-runtime"));
}

#[test]
fn the_block_palette_is_empty() {
    let body = sample().encode();
    assert!(!body.is_empty());
    assert!(
        body.windows(3).any(|w| w == EMPTY_NBT),
        "the player property compound should be in there"
    );
}

#[test]
fn two_worlds_differ_only_where_they_should() {
    let a = StartGame::flat("one", "1.26.30", "s").encode();
    let b = StartGame::flat("two", "1.26.30", "s").encode();
    assert_ne!(a, b);
    assert_eq!(a.len(), b.len(), "same-length names, same-length packet");
}

#[test]
fn the_spawn_height_is_seventy() {
    assert_eq!(f32::from_bits(SPAWN_HEIGHT_BITS), 70.0);
    let s = sample();
    assert_eq!(s.generator, Generator::Flat);
    assert_eq!(s.generator.value(), 2);
    assert_eq!(Generator::Void.value(), 5);
    assert_eq!(s.spawn, (0, 70, 0));
}

/// The head of the body, byte for byte: entity id 1 zigzags to 2, runtime id 1, game
/// type creative zigzags to 2, then three floats and two angles.
#[test]
fn the_head_is_exactly_these_bytes() {
    let body = sample().encode();
    assert_eq!(&body[..3], &[2, 1, 2]);
    assert_eq!(&body[3..7], &0.0f32.to_le_bytes());
    assert_eq!(&body[7..11], &70.0f32.to_le_bytes());
    // The seed follows the rotation: eight zero bytes, then the fixed u16 biome type
    // and the "plains" name.
    assert_eq!(&body[23..31], &[0u8; 8]);
    assert_eq!(&body[31..33], &[0u8, 0]);
    assert_eq!(&body[33..40], b"\x06plains");
}

#[test]
fn the_position_follows_the_two_angles() {
    let mut w = Writer::new();
    w.f32_bits(12.5f32.to_bits()) // pitch
        .f32_bits((-90.0f32).to_bits()) // yaw
        .f32_bits(1.5f32.to_bits())
        .f32_bits(80.0f32.to_bits())
        .f32_bits((-3.25f32).to_bits())
        .f32_bits(0.0f32.to_bits()) // moveVecX, and everything after, is ignored
        .f32_bits(0.0f32.to_bits());

    let input = decode_auth_input(&w.finish()).unwrap();
    assert_eq!(f32::from_bits(input.pitch), 12.5);
    assert_eq!(f32::from_bits(input.yaw), -90.0);
    assert_eq!(
        (f32::from_bits(input.x), f32::from_bits(input.y), f32::from_bits(input.z)),
        (1.5, 80.0, -3.25)
    );
}

#[test]
fn a_body_too_short_to_hold_a_position_is_rejected() {
    let mut w = Writer::new();
    w.f32_bits(0).f32_bits(0).f32_bits(0);
    assert!(decode_auth_input(&w.finish()).is_err());
}

#[test]
fn a_short_body_names_the_bytes_left_over() {
    let body = [0u8; 18];
    assert_eq!(
        decode_auth_input(&body),
        Err(DecodeError::UnexpectedEnd { needed: 4, available: 2 })
    );
    let full = [1u8, 0, 0, 0, 2, 0, 0, 0, 3, 0, 0, 0, 4, 0, 0, 0, 5, 0, 0, 0];
    assert_eq!(
        decode_auth_input(&full),
        Ok(AuthInput { pitch: 1, yaw: 2, x: 3, y: 4, z: 5 })
    );
}

#[test]
fn a_64_bit_varint_round_trips() {
    let mut w = Writer::new();
    w.varint64(u64::MAX).zigzag64(i64::MIN).zigzag64(-1).varint64(300);
    let bytes = w.finish();
    assert_eq!(bytes[..10], [0xff, 0xff, 0xff, 0xff, 0xff, 0xff, 0xff, 0xff, 0xff, 0x01]);
    let mut r = Reader::new(&bytes);
    assert_eq!(r.varint64(), Ok(u64::MAX));
    assert_eq!(r.zigzag64(), Ok(i64::MIN));
    assert_eq!(r.zigzag64(), Ok(-1));
    assert_eq!(r.varint64(), Ok(300));
    assert!(r.is_empty());
    let eleven = [0x80u8; 11];
    let mut r = Reader::new(&eleven);
    assert_eq!(r.varint64(), Err(DecodeError::VarintTooLong));
}
