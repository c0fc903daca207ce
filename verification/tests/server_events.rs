use bedrock::crypto::jwt::Jwks;
use bedrock::protocol::batch::{self, Packet};
use bedrock::protocol::bytes::Writer;
use bedrock::protocol::level_chunk::CHUNK_WIDTH;
use bedrock::protocol::login::ID_LOGIN;
use bedrock::raknet::address::Address;
use bedrock::server::server::{Event, Server};
use bedrock::server::streaming::{FORGET_MARGIN, SERVER_CHUNK_RADIUS, SURFACE_HEIGHT};

const TARGET_PROTOCOL: u32 = 1001;

fn a_server() -> Server {
    let local = Address::V4 { octets: [0, 0, 0, 0], port: 19132 };
    Server::new(local, 1, "MCPE;x", TARGET_PROTOCOL, "1.0.0", "bedrock-runtime test")
}

fn a_peer() -> Address {
    Address::V4 { octets: [203, 0, 113, 5], port: 1234 }
}

/// Id 300 is not one we handle: it is reported rather than silently dropped.
#[test]
fn an_unknown_packet_is_reported_rather_than_dropped() {
    let payload = batch::encode(&[Packet::new(300, vec![1, 2, 3])]);
    let mut server = a_server();
    let peer = a_peer();

    let events = server.on_payload(peer, &payload, 0);
    assert_eq!(events, vec![Event::Unhandled { peer, id: 300, body: vec![1, 2, 3] }]);
}

fn a_login(identity: &str) -> Vec<u8> {
    let mut blob = Writer::new();
    blob.u32(u32::try_from(identity.len()).unwrap_or(0)).bytes(identity.as_bytes()).u32(0);
    let mut w = Writer::new();
    w.u32_be(TARGET_PROTOCOL).prefixed(&blob.finish());
    batch::encode(&[Packet::new(ID_LOGIN, w.finish())])
}

/// A server that cannot verify refuses.
#[test]
fn without_issuer_keys_a_login_is_refused() {
    let mut server = a_server();
    let peer = a_peer();
    assert!(!server.can_verify_identity());

    let payload = a_login(r#"{"Token":"aaa.bbb.ccc"}"#);
    let events = server.on_payload(peer, &payload, 0);

    assert!(matches!(events.as_slice(), [Event::LoginRejected { .. }]), "{events:?}");
}

/// A refused login must not leave a cipher behind.
#[test]
fn a_refused_login_starts_no_encryption() {
    let mut server = a_server();
    let peer = a_peer();
    server.on_payload(peer, &a_login(r#"{"Token":"aaa.bbb.ccc"}"#), 0);
    assert!(!server.encrypts(&peer));
}

#[test]
fn a_login_that_is_not_json_is_refused_not_crashed() {
    let mut server = a_server();
    let peer = a_peer();
    for identity in ["", "not json", "{}", r#"{"Token":42}"#] {
        let events = server.on_payload(peer, &a_login(identity), 0);
        assert!(
            matches!(events.as_slice(), [Event::LoginRejected { .. }]),
            "{identity:?} -> {events:?}"
        );
    }
}

/// A later reading must win over the old anchor.
#[test]
fn the_clock_can_be_moved_forward() {
    let mut server = a_server();
    let at = 0;
    server.set_identity_keys(Jwks::parse(r#"{"keys":[]}"#).unwrap(), 1_000, at);
    assert_eq!(server.unix_now(at), Some(1_000));

    server.set_clock(9_999, at);
    assert_eq!(server.unix_now(at), Some(9_999), "a later reading must win over the old anchor");
}

/// Keys alone are not enough: both a clock and keys are needed.
#[test]
fn keys_and_a_clock_are_both_required() {
    let server = a_server();
    assert!(!server.can_verify_identity());

    let mut with_keys = a_server();
    let keys = Jwks::parse(r#"{"keys":[]}"#).unwrap();
    with_keys.set_identity_keys(keys, 1_700_000_000, 0);
    assert!(with_keys.can_verify_identity());
}

fn a_server_with_a_player_at_spawn() -> (Server, Address, usize) {
    let mut server = a_server();
    let peer = a_peer();

    // No cipher, so nothing actually goes out: the bookkeeping is the same either way.
    let spawned = server.stream_world(peer, SERVER_CHUNK_RADIUS, 0);
    let Event::Spawned { columns, .. } = spawned else {
        unreachable!("stream_world reports a spawn")
    };
    (server, peer, columns)
}

/// A reported position, as the caller hands it over: the block it falls in and the
/// height of the feet.
fn moves_to(server: &mut Server, peer: Address, x: f32, z: f32) -> Option<Event> {
    let y = SURFACE_HEIGHT as f32;
    let feet = (y - 1.62) as i32;
    server.on_player_moved(peer, x.floor() as i32, z.floor() as i32, feet, 0)
}

fn streamed(event: &Option<Event>) -> Option<usize> {
    match event {
        Some(Event::ChunksStreamed { columns, .. }) => Some(*columns),
        _ => None,
    }
}

/// Spawn covers the square around the origin, and nothing beyond it.
#[test]
fn spawning_streams_the_view_distance_around_the_origin() {
    let (server, _, columns) = a_server_with_a_player_at_spawn();
    let side = (SERVER_CHUNK_RADIUS * 2 + 1) as usize;
    assert_eq!(columns, side * side);
    assert_eq!(server.loaded_columns(), side * side);
}

/// A player who walks keeps being sent world.
#[test]
fn crossing_into_a_new_column_streams_the_ground_ahead() {
    let (mut server, peer, _) = a_server_with_a_player_at_spawn();

    let events = moves_to(&mut server, peer, 15.0, 0.0);
    assert_eq!(streamed(&events), None, "same column, no streaming");

    let events = moves_to(&mut server, peer, 16.0, 0.0);
    let row = (SERVER_CHUNK_RADIUS * 2 + 1) as usize;
    assert_eq!(streamed(&events), Some(row));
    assert!(matches!(events, Some(Event::ChunksStreamed { chunk_x: 1, chunk_z: 0, .. })));
}

/// Block -1 belongs to column -1.
#[test]
fn walking_west_of_the_origin_crosses_a_column_too() {
    let (mut server, peer, _) = a_server_with_a_player_at_spawn();
    let events = moves_to(&mut server, peer, -0.5, 0.0);
    let row = (SERVER_CHUNK_RADIUS * 2 + 1) as usize;
    assert_eq!(streamed(&events), Some(row));
}

/// Ground already sent is not sent again.
#[test]
fn walking_back_over_ground_already_sent_costs_nothing() {
    let (mut server, peer, _) = a_server_with_a_player_at_spawn();
    moves_to(&mut server, peer, 16.0, 0.0);

    let events = moves_to(&mut server, peer, 8.0, 0.0);
    assert_eq!(streamed(&events), Some(0));
}

/// Far enough away, a column is forgotten, and coming back sends it again.
#[test]
fn columns_left_far_behind_are_sent_again_on_the_way_back() {
    let (mut server, peer, _) = a_server_with_a_player_at_spawn();

    let far = ((SERVER_CHUNK_RADIUS + FORGET_MARGIN + 5) * CHUNK_WIDTH) as f32;
    moves_to(&mut server, peer, far, 0.0);

    let events = moves_to(&mut server, peer, 0.0, 0.0);
    let side = (SERVER_CHUNK_RADIUS * 2 + 1) as usize;
    assert_eq!(streamed(&events), Some(side * side), "nothing around the origin was still remembered");
}

/// The world is generated once and kept.
#[test]
fn walking_does_not_regenerate_ground_already_generated() {
    let (mut server, peer, _) = a_server_with_a_player_at_spawn();
    moves_to(&mut server, peer, 16.0, 0.0);
    let after_walking = server.loaded_columns();

    moves_to(&mut server, peer, 0.0, 0.0);
    assert_eq!(server.loaded_columns(), after_walking);
}

/// A player who leaves takes their bookkeeping with them.
#[test]
fn a_disconnect_forgets_the_player() {
    let (mut server, peer, _) = a_server_with_a_player_at_spawn();
    assert!(server.in_world(&peer));

    server.forget(peer);
    assert!(!server.in_world(&peer));
    let events = moves_to(&mut server, peer, 16.0, 0.0);
    assert_eq!(streamed(&events), None, "a stranger streams nothing");
    assert_eq!(events, None);
}

#[test]
fn a_payload_that_is_not_a_batch_is_reported() {
    let mut server = a_server();
    let peer = a_peer();
    let events = server.on_payload(peer, &[0x00, 0x01], 0);
    assert!(matches!(events.as_slice(), [Event::Undecodable(_, _)]));
}

/// A settings request is answered, and the reply goes out to the peer.
#[test]
fn a_settings_request_is_reported_with_the_declared_protocol() {
    let raw = [0xfe, 0x06, 0xc1, 0x01, 0x00, 0x00, 0x03, 0xe9];
    let mut server = a_server();
    let peer = a_peer();
    let events = server.on_payload(peer, &raw, 0);
    assert_eq!(events, vec![Event::NetworkSettingsRequested { peer, client_protocol: 1001 }]);
}

/// Several packets in one clear batch give one event each, in order.
#[test]
fn each_packet_in_the_clear_gives_one_event() {
    let payload = batch::encode(&[Packet::new(300, vec![1]), Packet::new(0x04, vec![]), Packet::new(301, vec![])]);
    let mut server = a_server();
    let peer = a_peer();
    let events = server.on_payload(peer, &payload, 0);
    assert_eq!(
        events,
        vec![
            Event::Unhandled { peer, id: 300, body: vec![1] },
            Event::HandshakeAccepted(peer),
            Event::Unhandled { peer, id: 301, body: vec![] },
        ]
    );
}

/// A plaintext that does not split into packets is reported whole.
#[test]
fn a_plaintext_that_does_not_split_is_reported_whole() {
    let mut server = a_server();
    let peer = a_peer();
    let events = server.on_plaintext(peer, &[0xff, 0x05, 0x01], 0);
    assert_eq!(events, vec![Event::Undecodable(peer, vec![0xff, 0x05, 0x01])]);
}

/// A plaintext's unknown packet is reported with its id and length.
#[test]
fn a_plaintext_packet_not_handled_is_reported() {
    let framed = batch::encode(&[Packet::new(300, vec![9, 9])]);
    let mut plaintext = vec![0xff];
    plaintext.extend_from_slice(&framed[1..]);
    let mut server = a_server();
    let peer = a_peer();
    let events = server.on_plaintext(peer, &plaintext, 0);
    assert_eq!(events, vec![Event::Decrypted { peer, id: 300, len: 2 }]);
}

/// The handshake out of the encrypted stream is answered with where the login stands.
#[test]
fn the_encrypted_handshake_is_answered_with_a_status() {
    let framed = batch::encode(&[Packet::new(0x04, vec![])]);
    let mut plaintext = vec![0xff];
    plaintext.extend_from_slice(&framed[1..]);
    let mut server = a_server();
    let peer = a_peer();
    let events = server.on_plaintext(peer, &plaintext, 0);
    assert_eq!(
        events,
        vec![
            Event::HandshakeAccepted(peer),
            Event::PlayStatusSent { peer, status: bedrock::protocol::play_status::Status::LoginSuccess },
        ]
    );
}

/// A disconnect reported by the transport forgets the peer.
#[test]
fn a_forgotten_peer_has_no_stream() {
    let (mut server, peer, _) = a_server_with_a_player_at_spawn();
    server.forget(peer);
    assert!(!server.encrypts(&peer));
    assert_eq!(server.sessions(), 0);
}

/// A refused login says why, in the identity check's own words.
#[test]
fn a_refused_login_says_why() {
    let mut server = a_server();
    let peer = a_peer();
    let events = server.on_payload(peer, &a_login(r#"{"Token":"aaa.bbb.ccc"}"#), 0);
    assert_eq!(
        events,
        vec![Event::LoginRejected {
            peer,
            reason: "server has no issuer keys, so no login can be verified".to_string(),
        }]
    );
}
