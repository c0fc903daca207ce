use bedrock::protocol::bytes::{Reader, Writer};
use bedrock::protocol::chunk_radius::{decode_request, grant, granted, Request, ID_CHUNK_RADIUS_UPDATED};
use bedrock::protocol::batch;
use bedrock::protocol::handshake::{
    decode_handshake_token, server_to_client_handshake, Compression, NetworkSettings,
    RequestNetworkSettings, ID_NETWORK_SETTINGS, ID_REQUEST_NETWORK_SETTINGS,
    ID_SERVER_TO_CLIENT_HANDSHAKE,
};

#[test]
fn a_request_decodes() {
    let mut w = Writer::new();
    w.zigzag32(12).u8(16);
    assert_eq!(
        decode_request(&w.finish()).unwrap(),
        Request {
            radius: 12,
            max_radius: 16
        }
    );
}

#[test]
fn a_truncated_request_fails_cleanly() {
    let mut w = Writer::new();
    w.zigzag32(12);
    assert!(decode_request(&w.finish()).is_err());
    assert!(decode_request(&[]).is_err());
}

#[test]
fn the_grant_never_exceeds_what_the_server_serves() {
    let asked = Request {
        radius: 32,
        max_radius: 64,
    };
    assert_eq!(grant(&asked, 4), 4);
}

#[test]
fn a_modest_request_is_granted_as_asked() {
    let asked = Request {
        radius: 2,
        max_radius: 16,
    };
    assert_eq!(grant(&asked, 8), 2);
}

#[test]
fn the_grant_is_never_zero_or_negative() {
    for radius in [0, -1, i32::MIN] {
        let asked = Request {
            radius,
            max_radius: 16,
        };
        assert_eq!(grant(&asked, 8), 1, "{radius}");
    }
    assert_eq!(
        grant(
            &Request {
                radius: 4,
                max_radius: 16
            },
            0
        ),
        1
    );
}

#[test]
fn the_grant_round_trips_through_the_packet() {
    let packet = granted(6);
    assert_eq!(packet.id, ID_CHUNK_RADIUS_UPDATED);
    assert_eq!(Reader::new(&packet.body).zigzag32().unwrap(), 6);
}

#[test]
fn request_matches_the_captured_bytes() {
    let body = [0x00, 0x00, 0x03, 0xe9];
    assert_eq!(
        RequestNetworkSettings::decode(&body).unwrap(),
        RequestNetworkSettings {
            client_protocol: 1001
        }
    );
    assert_eq!(
        RequestNetworkSettings {
            client_protocol: 1001
        }
        .encode(),
        body
    );
}

#[test]
fn a_handshake_token_round_trips() {
    let token = "aaa.bbb.ccc";
    let packet = server_to_client_handshake(token);
    assert_eq!(packet.id, ID_SERVER_TO_CLIENT_HANDSHAKE);
    assert_eq!(decode_handshake_token(&packet.body).unwrap(), token);
}

#[test]
fn the_token_is_length_prefixed() {
    let packet = server_to_client_handshake("ab");
    assert_eq!(packet.body, vec![2, b'a', b'b']);
}

#[test]
fn a_truncated_token_fails_cleanly() {
    assert!(decode_handshake_token(&[9, b'a']).is_err());
    assert!(decode_handshake_token(&[]).is_err());
}

#[test]
fn compression_algorithms_have_their_wire_values() {
    for c in [Compression::ZLib, Compression::Snappy, Compression::Uncompressed] {
        assert_eq!(Compression::from_value(c.value()), Some(c));
    }
    assert_eq!(Compression::ZLib.value(), 0);
    assert_eq!(Compression::Snappy.value(), 1);
    assert_eq!(Compression::Uncompressed.value(), 2);
    assert_eq!(Compression::from_value(99), None);
    assert!(RequestNetworkSettings::decode(&[0, 0]).is_err());
}

#[test]
fn network_settings_round_trips() {
    let settings = NetworkSettings {
        compression_threshold: 512,
        compression: Compression::Snappy,
        client_throttle_enabled: true,
        client_throttle_threshold: 20,
        client_throttle_scalar: 0.5f32.to_bits(),
    };
    assert_eq!(NetworkSettings::decode(&settings.encode()).unwrap(), settings);
}

/// Ten bytes, in Mojang's ordinal order: threshold, algorithm, enabled, threshold,
/// scalar.
#[test]
fn the_body_is_ten_bytes_in_a_fixed_order() {
    let body = NetworkSettings::uncompressed().encode();
    assert_eq!(body.len(), 2 + 2 + 1 + 1 + 4);
    assert_eq!(body, vec![0, 0, 2, 0, 0, 0, 0, 0, 0, 0]);
}

#[test]
fn uncompressed_disables_it_twice_over() {
    let settings = NetworkSettings::uncompressed();
    assert_eq!(settings.compression, Compression::Uncompressed);
    assert_eq!(settings.compression_threshold, 0);
}

#[test]
fn an_unknown_algorithm_reads_as_none() {
    let mut w = Writer::new();
    w.u16(0).u16(99).u8(0).u8(0).f32_bits(0.0f32.to_bits());
    assert_eq!(
        NetworkSettings::decode(&w.finish()).unwrap().compression,
        Compression::Uncompressed
    );
}

#[test]
fn truncated_bodies_fail_cleanly() {
    let full = NetworkSettings::uncompressed().encode();
    for n in 0..full.len() {
        assert!(NetworkSettings::decode(&full[..n]).is_err(), "{n}");
    }
    assert!(RequestNetworkSettings::decode(&[0, 0]).is_err());
}

/// The reply a client gets, built from the bytes a client actually sent.
#[test]
fn a_request_is_answered_with_uncompressed_settings() {
    let raw = [0xfe, 0x06, 0xc1, 0x01, 0x00, 0x00, 0x03, 0xe9];
    let packets = batch::decode(&raw).unwrap();
    assert_eq!(packets[0].id, ID_REQUEST_NETWORK_SETTINGS);

    let reply = batch::encode(&[NetworkSettings::uncompressed().packet()]);
    let decoded = batch::decode(&reply).unwrap();
    assert_eq!(decoded[0].id, ID_NETWORK_SETTINGS);

    let settings = NetworkSettings::decode(&decoded[0].body).unwrap();
    assert_eq!(settings.compression, Compression::Uncompressed);
    assert_eq!(settings.compression_threshold, 0);
}
