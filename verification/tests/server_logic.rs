use bedrock::crypto::jwt::{Jwks, JwtError};
use bedrock::protocol::batch::{self, Packet};
use bedrock::protocol::bytes::Writer;
use bedrock::protocol::chunk_radius::{ID_REQUEST_CHUNK_RADIUS, ID_SERVERBOUND_LOADING_SCREEN};
use bedrock::protocol::handshake::{ID_CLIENT_TO_SERVER_HANDSHAKE, ID_REQUEST_NETWORK_SETTINGS};
use bedrock::protocol::login::ID_LOGIN;
use bedrock::protocol::play_status::Status;
use bedrock::protocol::player::{AuthInput, ID_PLAYER_AUTH_INPUT, ID_SET_LOCAL_PLAYER_AS_INITIALIZED};
use bedrock::protocol::resource_packs::{Response, ID_RESOURCE_PACK_CLIENT_RESPONSE};
use bedrock::server::dispatch::{
    ciphertext_of, clear_step, decrypted_packets, encrypted_step, ClearStep, EncryptedStep,
    PackFollowUp,
};
use bedrock::server::identity::{verify_identity, Clock, IdentityError};
use bedrock::server::stage::Stage;
use bedrock::server::streaming::{column_of, Streaming, FORGET_MARGIN, SERVER_CHUNK_RADIUS};

const TARGET: u32 = 1001;

fn at_spawn() -> (Streaming, usize) {
    let mut s = Streaming::new(SERVER_CHUNK_RADIUS);
    let sent = s.recentre((0, 0)).len();
    (s, sent)
}

/// Spawn covers the square around the origin, and nothing beyond it.
#[test]
fn spawn_sends_the_square_around_the_origin() {
    let (s, columns) = at_spawn();
    let side = (SERVER_CHUNK_RADIUS * 2 + 1) as usize;
    assert_eq!(columns, side * side);
    assert_eq!(s.remembered_count(), side * side);
    assert!(s.has_sent((4, -4)));
    assert!(!s.has_sent((5, 0)));
}

/// A player who walks keeps being sent world.
#[test]
fn a_new_column_brings_one_row_into_view() {
    let (mut s, _) = at_spawn();
    // Still inside the column they spawned in: nothing to send.
    assert!(s.walk_to((column_of(15), column_of(0))).is_none(), "same column, no streaming");
    // One block further is the next column, which brings one new row into view.
    let row = (SERVER_CHUNK_RADIUS * 2 + 1) as usize;
    let sent = s.walk_to((column_of(16), column_of(0))).unwrap();
    assert_eq!(sent.len(), row);
    assert!(sent.iter().all(|&(x, _)| x == 5));
}

/// Block -1 belongs to column -1: truncating towards zero would stream nothing.
#[test]
fn block_minus_one_is_in_column_minus_one() {
    let (mut s, _) = at_spawn();
    assert_eq!(column_of(-1), -1);
    let row = (SERVER_CHUNK_RADIUS * 2 + 1) as usize;
    assert_eq!(s.walk_to((column_of(-1), column_of(0))).unwrap().len(), row);
}

/// Ground already sent is not sent again.
#[test]
fn ground_already_sent_is_not_sent_again() {
    let (mut s, _) = at_spawn();
    s.walk_to((1, 0));
    assert_eq!(s.walk_to((0, 0)).unwrap().len(), 0);
}

/// Far enough away, a column is forgotten, and coming back sends it again.
#[test]
fn forgotten_columns_are_owed_again() {
    let (mut s, _) = at_spawn();
    let far = SERVER_CHUNK_RADIUS + FORGET_MARGIN + 5;
    s.walk_to((far, 0));
    let side = (SERVER_CHUNK_RADIUS * 2 + 1) as usize;
    assert_eq!(
        s.walk_to((0, 0)).unwrap().len(),
        side * side,
        "nothing around the origin was still remembered"
    );
}

/// Within the margin, columns behind are remembered and not re-sent.
#[test]
fn the_margin_keeps_a_pacing_player_from_resending() {
    let (mut s, _) = at_spawn();
    for _ in 0..5 {
        s.walk_to((1, 0));
        s.walk_to((0, 0));
    }
    assert!(s.has_sent((-4, 0)));
    assert_eq!(s.walk_to((1, 0)).unwrap().len(), 0);
    let side = (SERVER_CHUNK_RADIUS * 2 + 1) as usize;
    assert_eq!(s.remembered_count(), side * (side + 1));
}

#[test]
fn a_negative_radius_streams_only_the_column_underfoot() {
    let mut s = Streaming::new(-3);
    assert_eq!(s.radius(), 0);
    assert_eq!(s.recentre((2, 2)), vec![(2, 2)]);
    assert_eq!(s.publisher_radius(), 0);
}

fn packet(id: u32, body: &[u8]) -> Packet {
    Packet::new(id, body.to_vec())
}

#[test]
fn packets_in_the_clear_are_routed_by_id() {
    assert_eq!(
        clear_step(&packet(ID_REQUEST_NETWORK_SETTINGS, &[0, 0, 3, 0xe9])),
        ClearStep::Settings { client_protocol: 1001 }
    );
    assert_eq!(
        clear_step(&packet(ID_REQUEST_NETWORK_SETTINGS, &[0, 0])),
        ClearStep::Settings { client_protocol: 0 }
    );
    assert_eq!(clear_step(&packet(ID_LOGIN, &[])), ClearStep::Login);
    assert_eq!(clear_step(&packet(ID_CLIENT_TO_SERVER_HANDSHAKE, &[])), ClearStep::Handshake);
    assert_eq!(clear_step(&packet(300, &[1, 2, 3])), ClearStep::Unhandled);
}

/// The verdict names the side that is behind.
#[test]
fn the_handshake_verdict_names_the_side_behind() {
    let hs = packet(ID_CLIENT_TO_SERVER_HANDSHAKE, &[]);
    assert_eq!(
        encrypted_step(&hs, Stage::Spawn, Some(TARGET), TARGET),
        EncryptedStep::Handshake { status: Status::LoginSuccess, offer_packs: true }
    );
    assert_eq!(
        encrypted_step(&hs, Stage::Spawn, Some(TARGET - 1), TARGET),
        EncryptedStep::Handshake { status: Status::ClientOutdated, offer_packs: false }
    );
    assert_eq!(
        encrypted_step(&hs, Stage::Spawn, Some(TARGET + 1), TARGET),
        EncryptedStep::Handshake { status: Status::ServerOutdated, offer_packs: false }
    );
    assert_eq!(
        encrypted_step(&hs, Stage::Spawn, None, TARGET),
        EncryptedStep::Handshake { status: Status::LoginSuccess, offer_packs: true }
    );
}

#[test]
fn pack_answers_lead_to_the_stack_then_the_world() {
    let have = packet(ID_RESOURCE_PACK_CLIENT_RESPONSE, &[2]);
    let done = packet(ID_RESOURCE_PACK_CLIENT_RESPONSE, &[3]);
    assert_eq!(
        encrypted_step(&have, Stage::Spawn, None, TARGET),
        EncryptedStep::Packs { response: Response::DownloadingFinished, follow_up: PackFollowUp::SendStack }
    );
    assert_eq!(
        encrypted_step(&done, Stage::Spawn, None, TARGET),
        EncryptedStep::Packs {
            response: Response::StackFinished,
            follow_up: PackFollowUp::SendWorld { registries: false }
        }
    );
    assert_eq!(
        encrypted_step(&done, Stage::World, None, TARGET),
        EncryptedStep::Packs {
            response: Response::StackFinished,
            follow_up: PackFollowUp::SendWorld { registries: true }
        }
    );
    assert_eq!(
        encrypted_step(&packet(ID_RESOURCE_PACK_CLIENT_RESPONSE, &[9]), Stage::Spawn, None, TARGET),
        EncryptedStep::Nothing
    );
}

#[test]
fn a_radius_request_is_granted_only_from_its_stage_on() {
    let mut w = Writer::new();
    w.zigzag32(12).u8(16);
    let request = packet(ID_REQUEST_CHUNK_RADIUS, &w.finish());
    assert_eq!(encrypted_step(&request, Stage::World, None, TARGET), EncryptedStep::Nothing);
    assert_eq!(
        encrypted_step(&request, Stage::Radius, None, TARGET),
        EncryptedStep::Radius { requested: 12, granted: SERVER_CHUNK_RADIUS, stream: false }
    );
    assert_eq!(
        encrypted_step(&request, Stage::Spawn, None, TARGET),
        EncryptedStep::Radius { requested: 12, granted: SERVER_CHUNK_RADIUS, stream: true }
    );
}

#[test]
fn narration_and_positions_are_routed() {
    assert_eq!(
        encrypted_step(&packet(ID_SERVERBOUND_LOADING_SCREEN, &[1]), Stage::Spawn, None, TARGET),
        EncryptedStep::Nothing
    );
    assert_eq!(
        encrypted_step(&packet(ID_SET_LOCAL_PLAYER_AS_INITIALIZED, &[]), Stage::Spawn, None, TARGET),
        EncryptedStep::Initialized
    );
    let mut body = Vec::new();
    for v in [1u32, 2, 3, 4, 5, 6] {
        body.extend_from_slice(&v.to_le_bytes());
    }
    assert_eq!(
        encrypted_step(&packet(ID_PLAYER_AUTH_INPUT, &body), Stage::Spawn, None, TARGET),
        EncryptedStep::Moved(AuthInput { pitch: 1, yaw: 2, x: 3, y: 4, z: 5 })
    );
    assert_eq!(
        encrypted_step(&packet(ID_PLAYER_AUTH_INPUT, &body[..8]), Stage::Spawn, None, TARGET),
        EncryptedStep::Nothing
    );
    assert_eq!(
        encrypted_step(&packet(300, &[1, 2, 3]), Stage::Spawn, None, TARGET),
        EncryptedStep::Decrypted { id: 300, len: 3 }
    );
}

#[test]
fn a_decrypted_payload_skips_its_method_byte() {
    let framed = batch::encode(&[Packet::new(300, vec![1, 2, 3])]);
    let mut plaintext = vec![0xff];
    plaintext.extend_from_slice(&framed[1..]);
    let packets = decrypted_packets(&plaintext).unwrap();
    assert_eq!(packets, vec![Packet::new(300, vec![1, 2, 3])]);
    assert!(decrypted_packets(&[]).unwrap().is_empty());
    assert!(decrypted_packets(&[0xff, 9]).is_err());
}

#[test]
fn the_marker_stays_in_the_clear() {
    assert_eq!(ciphertext_of(&[0xfe, 1, 2]), Some(&[1u8, 2][..]));
    assert_eq!(ciphertext_of(&[0x00, 1]), None);
    assert_eq!(ciphertext_of(&[]), None);
}

/// A server that cannot verify refuses.
#[test]
fn no_keys_is_its_own_refusal() {
    let identity = r#"{"Token":"aaa.bbb.ccc"}"#;
    assert_eq!(verify_identity(identity, None, Some(0)).unwrap_err(), IdentityError::NoKeys);
}

/// Keys alone are not enough: without a clock an expiry cannot be judged.
#[test]
fn no_clock_is_its_own_refusal() {
    let keys = Jwks::parse(r#"{"keys":[]}"#).unwrap();
    assert_eq!(
        verify_identity(r#"{"Token":"a.b.c"}"#, Some(&keys), None).unwrap_err(),
        IdentityError::NoClock
    );
}

#[test]
fn each_malformed_identity_has_its_refusal() {
    let keys = Jwks::parse(r#"{"keys":[]}"#).unwrap();
    assert_eq!(verify_identity("", Some(&keys), Some(0)).unwrap_err(), IdentityError::NotJson);
    assert_eq!(
        verify_identity("not json", Some(&keys), Some(0)).unwrap_err(),
        IdentityError::NotJson
    );
    assert_eq!(verify_identity("{}", Some(&keys), Some(0)).unwrap_err(), IdentityError::NoToken);
    assert_eq!(
        verify_identity(r#"{"Token":42}"#, Some(&keys), Some(0)).unwrap_err(),
        IdentityError::NoToken
    );
    assert_eq!(
        verify_identity(r#"{"Token":"aaa.bbb.ccc"}"#, Some(&keys), Some(0)).unwrap_err(),
        IdentityError::Token(JwtError::MalformedSegment("header"))
    );
}

/// A later reading must win over the old anchor.
#[test]
fn a_clock_reading_replaces_the_anchor() {
    let mut clock = Clock::unset();
    assert!(!clock.is_set());
    assert_eq!(clock.unix_now(5), None);
    clock.set(1_000, 0);
    assert_eq!(clock.unix_now(0), Some(1_000));
    assert_eq!(clock.unix_now(2_500_000_000), Some(1_002));
    clock.set(9_999, 0);
    assert_eq!(clock.unix_now(0), Some(9_999), "a later reading must win over the old anchor");
    clock.set(i64::MAX, 0);
    assert_eq!(clock.unix_now(5_000_000_000), None);
    clock.set(100, 10_000_000_000);
    assert_eq!(clock.unix_now(0), Some(100), "a reading from before the anchor counts nothing");
}
