use bedrock::raknet::advertisement::Advertisement;
use bedrock::raknet::connect::{
    decode_incompatible, decode_reply_1, encode_request_1, payload_limit, ConnectError,
    ID_INCOMPATIBLE_PROTOCOL_VERSION, ID_OPEN_CONNECTION_REPLY_1, ID_OPEN_CONNECTION_REPLY_2,
    ID_OPEN_CONNECTION_REQUEST_1, MTU_LADDER, PROTOCOL_VERSION,
};
use bedrock::raknet::online::{
    decode_connected_pong, encode_connected_ping, encode_connection_request, encode_disconnect,
    OnlineError, ID_CONNECTED_PING, ID_CONNECTED_PONG, ID_CONNECTION_REQUEST, ID_DISCONNECT,
};
use bedrock::raknet::wire::Writer;
use bedrock::raknet::{MAGIC, MAX_MTU};

#[test]
fn request_1_is_padded_to_the_probed_mtu() {
    for mtu in MTU_LADDER {
        let buf = encode_request_1(mtu).unwrap();
        assert_eq!(buf.len(), mtu);
        assert_eq!(buf[0], ID_OPEN_CONNECTION_REQUEST_1);
        assert_eq!(buf[17], PROTOCOL_VERSION);
    }
}

#[test]
fn request_1_refuses_an_mtu_smaller_than_itself() {
    assert_eq!(encode_request_1(4), None);
}

fn reply_1(cookie: Option<u32>) -> Vec<u8> {
    let mut w = Writer::new();
    w.u8(ID_OPEN_CONNECTION_REPLY_1).bytes(&MAGIC).i64(7);
    match cookie {
        Some(c) => {
            w.u8(1).u32(c);
        }
        None => {
            w.u8(0);
        }
    }
    w.u16(1400);
    w.finish()
}

#[test]
fn reply_1_without_security_has_no_cookie() {
    let r = decode_reply_1(&reply_1(None)).unwrap();
    assert_eq!(r.server_guid, 7);
    assert_eq!(r.cookie, None);
    assert_eq!(r.mtu, 1400);
}

#[test]
fn reply_1_with_security_carries_a_cookie() {
    let r = decode_reply_1(&reply_1(Some(0xdead_beef))).unwrap();
    assert_eq!(r.cookie, Some(0xdead_beef));
    assert_eq!(r.mtu, 1400);
}

#[test]
fn incompatible_version_reports_what_the_server_speaks() {
    let mut w = Writer::new();
    w.u8(ID_INCOMPATIBLE_PROTOCOL_VERSION).u8(11).bytes(&MAGIC).i64(42);
    let r = decode_incompatible(&w.finish()).unwrap();
    assert_eq!(r.server_protocol, 11);
    assert_eq!(r.server_guid, 42);
}

#[test]
fn wrong_magic_is_rejected() {
    let mut buf = reply_1(None);
    buf[5] ^= 0xff;
    assert_eq!(decode_reply_1(&buf), Err(ConnectError::BadMagic));
}

#[test]
fn wrong_id_is_rejected() {
    let mut buf = reply_1(None);
    buf[0] = ID_OPEN_CONNECTION_REPLY_2;
    assert!(matches!(
        decode_reply_1(&buf),
        Err(ConnectError::UnexpectedId { .. })
    ));
}

#[test]
fn truncated_replies_fail_cleanly() {
    let full = reply_1(None);
    for n in 0..full.len() {
        assert!(decode_reply_1(&full[..n]).is_err(), "prefix of {n} bytes");
    }
}

#[test]
fn the_payload_limit_leaves_room_for_the_headers() {
    assert_eq!(payload_limit(MAX_MTU as u16), 1464);
    assert_eq!(payload_limit(576), 548);
    assert_eq!(payload_limit(10), 0);
    assert_eq!(encode_request_1(18).unwrap().len(), 18);
    assert_eq!(encode_request_1(17), None);
}

#[test]
fn connection_request_has_a_fixed_shape() {
    let buf = encode_connection_request(7, 9);
    assert_eq!(buf.len(), 1 + 8 + 8 + 1);
    assert_eq!(buf[0], ID_CONNECTION_REQUEST);
}

#[test]
fn connected_pong_round_trips() {
    let mut w = Writer::new();
    w.u8(ID_CONNECTED_PONG).i64(5).i64(6);
    let pong = decode_connected_pong(&w.finish()).unwrap();
    assert_eq!(pong.ping_time, 5);
    assert_eq!(pong.pong_time, 6);
}

#[test]
fn a_connected_pong_with_the_wrong_id_is_reported() {
    let mut w = Writer::new();
    w.u8(ID_DISCONNECT).i64(5).i64(6);
    assert_eq!(
        decode_connected_pong(&w.finish()),
        Err(OnlineError::UnexpectedId {
            expected: ID_CONNECTED_PONG,
            found: ID_DISCONNECT
        })
    );
    assert!(matches!(
        decode_connected_pong(&[ID_CONNECTED_PONG, 0]),
        Err(OnlineError::Truncated(_))
    ));
    assert_eq!(encode_disconnect(), vec![ID_DISCONNECT]);
    assert_eq!(encode_connected_ping(1), vec![ID_CONNECTED_PING, 0, 0, 0, 0, 0, 0, 0, 1]);
}

#[test]
fn reads_the_documented_fields() {
    let a = Advertisement::parse("MCPE;hello;1001;1.26.30;7;16;123;sub;Survival");
    assert_eq!(a.edition(), Some("MCPE"));
    assert_eq!(a.motd(), Some("hello"));
    assert_eq!(a.protocol_version(), Some(1001));
    assert_eq!(a.version_name(), Some("1.26.30"));
    assert_eq!(a.online_players(), Some(7));
    assert_eq!(a.max_players(), Some(16));
    assert_eq!(a.server_guid(), Some(123));
    assert_eq!(a.sub_motd(), Some("sub"));
    assert_eq!(a.gamemode(), Some("Survival"));
}

#[test]
fn missing_fields_are_none_not_errors() {
    let a = Advertisement::parse("MCPE;hello");
    assert_eq!(a.len(), 2);
    assert_eq!(a.motd(), Some("hello"));
    assert_eq!(a.protocol_version(), None);
    assert_eq!(a.gamemode(), None);
}

#[test]
fn a_trailing_semicolon_yields_an_empty_field() {
    let a = Advertisement::parse("MCPE;hello;");
    assert_eq!(a.len(), 3);
    assert_eq!(a.field(2), Some(""));
}

#[test]
fn a_non_numeric_number_is_none_not_a_panic() {
    let a = Advertisement::parse("MCPE;x;not-a-number;1.0;a;b;c;;Survival");
    assert_eq!(a.protocol_version(), None);
    assert_eq!(a.online_players(), None);
    assert_eq!(a.version_name(), Some("1.0"));
}

#[test]
fn an_empty_string_still_parses() {
    let a = Advertisement::parse("");
    assert_eq!(a.len(), 1);
    assert_eq!(a.edition(), Some(""));
}

#[test]
fn numbers_follow_rusts_integer_parsing() {
    let a = Advertisement::parse("MCPE;m;+12;v;4294967296;0;-9223372036854775808");
    assert_eq!(a.protocol_version(), Some(12));
    assert_eq!(a.online_players(), Some(4294967296));
    assert_eq!(a.max_players(), Some(0));
    assert_eq!(a.server_guid(), Some(i64::MIN));
    assert_eq!(
        Advertisement::parse("MCPE;m;4294967296").protocol_version(),
        None
    );
    assert_eq!(Advertisement::parse("a;b").fields(), vec!["a", "b"]);
    assert!(!Advertisement::parse("").is_empty());
}
