use bedrock::raknet::address::Address;
use bedrock::raknet::connect::{
    decode_reply_1, decode_reply_2, encode_request_1, encode_request_2, payload_limit,
    ID_INCOMPATIBLE_PROTOCOL_VERSION, PROTOCOL_VERSION,
};
use bedrock::raknet::datagram::{Datagram, FrameSet};
use bedrock::raknet::frame::{Frame, Reliability};
use bedrock::raknet::listener::{Event, Listener, ListenerConfig};
use bedrock::raknet::offline::{decode_unconnected_pong, encode_unconnected_ping};
use bedrock::raknet::online::ID_NEW_INCOMING_CONNECTION;
use bedrock::raknet::session::Closed;
use bedrock::raknet::wire::Writer;

const SEC: u64 = 1_000_000_000;
const T0: u64 = 2 * SEC;

fn local() -> Address {
    Address::V4 {
        octets: [198, 51, 100, 1],
        port: 19132,
    }
}

fn listener() -> Listener {
    Listener::new(
        local(),
        0x1234,
        "MCPE;test;1001;1.26.30;0;10;1234;;Survival",
        ListenerConfig::default(),
    )
}

fn peer(n: u16) -> Address {
    Address::V4 {
        octets: [203, 0, 113, (n % 250 + 1) as u8],
        port: 41234,
    }
}

#[test]
fn a_ping_is_answered_with_the_advertisement() {
    let mut l = listener();
    let t = T0;
    l.receive(peer(1), &encode_unconnected_ping(42, 7), t);

    let (to, datagram) = l.poll_transmit().unwrap();
    assert_eq!(to, peer(1));
    let pong = decode_unconnected_pong(&datagram).unwrap();
    assert_eq!(pong.time, 42);
    assert_eq!(pong.server_guid, 0x1234);
    assert!(pong.advertisement.starts_with("MCPE;"));
}

#[test]
fn the_advertisement_is_capped() {
    let config = ListenerConfig {
        max_advertisement: 16,
        ..ListenerConfig::default()
    };
    let mut l = Listener::new(local(), 1, &"x".repeat(10_000), config);
    l.receive(peer(1), &encode_unconnected_ping(1, 1), T0);
    let (_, datagram) = l.poll_transmit().unwrap();
    assert_eq!(decode_unconnected_pong(&datagram).unwrap().advertisement.len(), 16);
}

#[test]
fn the_open_sequence_is_not_rate_limited() {
    let mut l = listener();
    let t = T0;

    l.receive(peer(1), &encode_request_1(1200).unwrap(), t);
    assert!(l.poll_transmit().is_some());

    let request = encode_request_2(local(), 1228, 9, None);
    l.receive(peer(1), &request, t);
    assert!(l.poll_transmit().is_some(), "request 2 follows request 1 immediately");
}

#[test]
fn pings_are_rate_limited_per_source() {
    let mut l = listener();
    let t = T0;

    l.receive(peer(1), &encode_unconnected_ping(1, 1), t);
    assert!(l.poll_transmit().is_some());

    l.receive(peer(1), &encode_unconnected_ping(2, 1), t);
    assert!(l.poll_transmit().is_none(), "same source, too soon");

    l.receive(peer(2), &encode_unconnected_ping(3, 1), t);
    assert!(l.poll_transmit().is_some(), "a different source is fine");

    l.receive(peer(1), &encode_unconnected_ping(4, 1), t + SEC);
    assert!(l.poll_transmit().is_some(), "the gap has passed");
}

#[test]
fn a_wrong_protocol_version_is_told_which_one_to_use() {
    let mut l = listener();
    let mut request = encode_request_1(600).unwrap();
    request[17] = PROTOCOL_VERSION + 1;

    l.receive(peer(1), &request, T0);
    let (_, datagram) = l.poll_transmit().unwrap();
    assert_eq!(datagram[0], ID_INCOMPATIBLE_PROTOCOL_VERSION);
    assert_eq!(datagram[1], PROTOCOL_VERSION);
}

#[test]
fn the_reply_mtu_adds_the_headers_back() {
    let mut l = listener();
    l.receive(peer(1), &encode_request_1(1200).unwrap(), T0);

    let (_, datagram) = l.poll_transmit().unwrap();
    let reply = decode_reply_1(&datagram).unwrap();
    assert_eq!(reply.mtu, 1228);
    assert_eq!(payload_limit(reply.mtu), 1200);
}

#[test]
fn request_2_opens_a_session() {
    let mut l = listener();
    let t = T0;

    l.receive(peer(1), &encode_request_1(1200).unwrap(), t);
    let _ = l.poll_transmit();
    assert_eq!(l.sessions(), 0);

    let request = encode_request_2(local(), 1228, 9, None);
    l.receive(peer(1), &request, t);

    let (_, datagram) = l.poll_transmit().unwrap();
    let reply = decode_reply_2(&datagram).unwrap();
    assert_eq!(reply.mtu, 1228);
    assert_eq!(reply.client_addr, peer(1));
    assert_eq!(l.sessions(), 1);
}

#[test]
fn sessions_are_capped() {
    let config = ListenerConfig {
        max_sessions: 2,
        ping_interval: 0,
        ..ListenerConfig::default()
    };
    let mut l = Listener::new(local(), 1, "MCPE;x", config);
    let request = encode_request_2(local(), 1228, 9, None);

    for n in 1..=5 {
        l.receive(peer(n), &request, T0);
    }
    assert_eq!(l.sessions(), 2);
}

fn complete(sequence: u32, reliable: u32, order: u32) -> Vec<u8> {
    let mut w = Writer::new();
    Datagram::FrameSet(FrameSet {
        sequence,
        frames: vec![Frame {
            reliability: Reliability::ReliableOrdered,
            reliable_index: reliable,
            sequence_index: 0,
            order_index: order,
            order_channel: 0,
            split: None,
            payload: vec![ID_NEW_INCOMING_CONNECTION],
        }],
    })
    .encode(&mut w);
    w.finish()
}

#[test]
fn connected_is_reported_once() {
    let mut l = listener();
    let request = encode_request_2(local(), 1228, 9, None);
    l.receive(peer(1), &request, T0);

    let events = l.receive(peer(1), &complete(0, 0, 0), T0);
    assert_eq!(events, vec![Event::Connected(peer(1))]);

    let events = l.receive(peer(1), &complete(1, 1, 1), T0);
    assert!(events.is_empty(), "already connected: {events:?}");
}

#[test]
fn a_silent_session_is_dropped_and_reported() {
    let mut l = listener();
    let request = encode_request_2(local(), 1228, 9, None);
    l.receive(peer(1), &request, T0);
    assert_eq!(l.sessions(), 1);

    let events = l.tick(T0 + 30 * SEC);
    assert_eq!(events, vec![Event::Disconnected(peer(1), Closed::Timeout)]);
    assert_eq!(l.sessions(), 0);
}

#[test]
fn junk_is_ignored_without_a_reply() {
    let mut l = listener();
    for bytes in [vec![], vec![0xff], vec![0x42; 40]] {
        l.receive(peer(1), &bytes, T0);
    }
    assert!(l.poll_transmit().is_none());
}

#[test]
fn a_payload_sent_to_a_peer_goes_out_tagged_with_it() {
    let mut l = listener();
    assert!(l.send(peer(3), vec![0xfe], T0).is_err());
    let request = encode_request_2(local(), 1228, 9, None);
    l.receive(peer(3), &request, T0);
    let _ = l.poll_transmit();
    l.send(peer(3), vec![0xfe, 1, 2], T0).unwrap();
    let (to, datagram) = l.poll_transmit().unwrap();
    assert_eq!(to, peer(3));
    let Ok(Datagram::FrameSet(set)) = Datagram::decode(&datagram) else {
        unreachable!("a frame set")
    };
    assert_eq!(set.frames[0].payload, vec![0xfe, 1, 2]);
}

/// A cap that falls inside a character cuts back to the start of that character.
#[test]
fn a_cap_inside_a_character_cuts_before_it() {
    let config = ListenerConfig { max_advertisement: 255, ..ListenerConfig::default() };
    let mut l = Listener::new(local(), 1, &"é".repeat(200), config);
    l.receive(peer(1), &encode_unconnected_ping(1, 1), T0);
    let (_, datagram) = l.poll_transmit().unwrap();
    let advertisement = decode_unconnected_pong(&datagram).unwrap().advertisement;
    assert_eq!(advertisement, "é".repeat(127));
}
