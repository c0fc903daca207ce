use bedrock::raknet::address::Address;
use bedrock::raknet::datagram::{Datagram, FrameSet};
use bedrock::raknet::frame::{Frame, Reliability};
use bedrock::raknet::online::{
    decode_connected_pong, encode_connected_ping, encode_connection_request, ID_CONNECTED_PING,
    ID_CONNECTION_REQUEST_ACCEPTED, ID_NEW_INCOMING_CONNECTION,
};
use bedrock::raknet::session::{Closed, Config, Session, SessionError, State, USER_PACKET_START};
use bedrock::raknet::wire::Writer;

const MS: u64 = 1_000_000;
const SEC: u64 = 1_000_000_000;
const T0: u64 = 3 * SEC;

fn addrs() -> (Address, Address) {
    (
        Address::V4 {
            octets: [203, 0, 113, 5],
            port: 41234,
        },
        Address::V4 {
            octets: [198, 51, 100, 1],
            port: 19132,
        },
    )
}

fn session(now: u64) -> Session {
    let (peer, local) = addrs();
    Session::new(peer, local, Config::default(), now)
}

/// Moves everything one side queued into the other, returning what was delivered.
fn pump(from: &mut Session, to: &mut Session, now: u64) -> Vec<Vec<u8>> {
    let mut delivered = Vec::new();
    while let Some(datagram) = from.poll_transmit() {
        if let Ok(payloads) = to.receive(&datagram, now) {
            delivered.extend(payloads);
        }
    }
    delivered
}

#[test]
fn a_payload_survives_the_round_trip() {
    let t = T0;
    let (mut a, mut b) = (session(t), session(t));
    let payload = b"\xfehello".to_vec();
    a.send(payload.clone(), t).unwrap();
    assert_eq!(pump(&mut a, &mut b, t), vec![payload]);
}

#[test]
fn payloads_below_the_user_threshold_are_not_delivered() {
    let t = T0;
    let (mut a, mut b) = (session(t), session(t));

    a.send(vec![0x00, 1, 2], t).unwrap();
    assert!(pump(&mut a, &mut b, t).is_empty());

    a.send(vec![USER_PACKET_START, 1, 2], t).unwrap();
    assert_eq!(pump(&mut a, &mut b, t), vec![vec![USER_PACKET_START, 1, 2]]);
}

#[test]
fn a_large_payload_is_split_and_rebuilt() {
    let t = T0;
    let (mut a, mut b) = (session(t), session(t));
    let mut payload = vec![0xfeu8];
    payload.extend((0..200_000).map(|i| (i % 251) as u8));

    a.send(payload.clone(), t).unwrap();
    let delivered = pump(&mut a, &mut b, t);
    assert_eq!(delivered, vec![payload]);
}

#[test]
fn payloads_arrive_in_order_when_datagrams_do_not() {
    let t = T0;
    let (mut a, mut b) = (session(t), session(t));
    for n in 0..4u8 {
        a.send(vec![0xfe, n], t).unwrap();
    }

    let mut datagrams: Vec<Vec<u8>> = std::iter::from_fn(|| a.poll_transmit()).collect();
    datagrams.reverse();

    let mut delivered = Vec::new();
    for datagram in datagrams {
        delivered.extend(b.receive(&datagram, t).unwrap_or_default());
    }
    assert_eq!(
        delivered,
        vec![vec![0xfe, 0], vec![0xfe, 1], vec![0xfe, 2], vec![0xfe, 3]]
    );
}

#[test]
fn a_duplicated_datagram_is_delivered_once() {
    let t = T0;
    let (mut a, mut b) = (session(t), session(t));
    a.send(vec![0xfe, 1], t).unwrap();
    let datagram = a.poll_transmit().unwrap();

    assert_eq!(b.receive(&datagram, t).unwrap().len(), 1);
    assert!(b.receive(&datagram, t).unwrap().is_empty());
}

#[test]
fn a_connection_request_is_answered_and_completes_the_handshake() {
    let t = T0;
    let (mut client, mut server) = (session(t), session(t));

    client.send(encode_connection_request(7, 99), t).unwrap();
    assert!(pump(&mut client, &mut server, t).is_empty());
    assert_eq!(server.state(), State::Connecting);

    let reply = server.poll_transmit().unwrap();
    let decoded = Datagram::decode(&reply).unwrap();
    let Datagram::FrameSet(set) = decoded else {
        unreachable!("the reply is a frame set")
    };
    assert_eq!(set.frames[0].payload[0], ID_CONNECTION_REQUEST_ACCEPTED);

    let mut w = Writer::new();
    Datagram::FrameSet(FrameSet {
        sequence: 50,
        frames: vec![Frame {
            reliability: Reliability::ReliableOrdered,
            reliable_index: 900,
            sequence_index: 0,
            order_index: 1,
            order_channel: 0,
            split: None,
            payload: vec![ID_NEW_INCOMING_CONNECTION],
        }],
    })
    .encode(&mut w);
    server.receive(&w.finish(), t).unwrap();
    assert_eq!(server.state(), State::Connected);
}

#[test]
fn a_ping_is_answered_with_a_pong() {
    let t = T0;
    let (mut a, mut b) = (session(t), session(t));
    a.send(encode_connected_ping(1234), t).unwrap();
    assert!(pump(&mut a, &mut b, t).is_empty(), "ping is not a payload");

    let reply = b.poll_transmit().unwrap();
    let Datagram::FrameSet(set) = Datagram::decode(&reply).unwrap() else {
        unreachable!("the reply is a frame set")
    };
    let pong = decode_connected_pong(&set.frames[0].payload).unwrap();
    assert_eq!(pong.ping_time, 1234);
}

#[test]
fn receiving_produces_an_acknowledgement_that_clears_the_sender() {
    let t = T0;
    let (mut a, mut b) = (session(t), session(t));
    a.send(vec![0xfe, 1], t).unwrap();
    pump(&mut a, &mut b, t);

    b.tick(t);
    let ack = b.poll_transmit().unwrap();
    assert!(matches!(Datagram::decode(&ack), Ok(Datagram::Ack(_))));

    a.receive(&ack, t + 30 * MS).unwrap();
    assert_eq!(a.rtt(), Some(30 * MS), "the ack should have measured the trip");
    assert_eq!(a.in_flight(), 0);
}

#[test]
fn an_unacknowledged_datagram_is_sent_again() {
    let t = T0;
    let mut a = session(t);
    a.send(vec![0xfe, 1], t).unwrap();
    let _ = a.poll_transmit();

    a.tick(t + 50 * MS);
    assert!(a.poll_transmit().is_none(), "too early");

    a.tick(t + 3 * SEC);
    assert!(a.poll_transmit().is_some(), "should have retransmitted");
}

#[test]
fn a_silent_peer_closes_the_session() {
    let t = T0;
    let mut a = session(t);
    a.tick(t + 19 * SEC);
    assert_eq!(a.state(), State::Connecting);

    a.tick(t + 21 * SEC);
    assert_eq!(a.state(), State::Closed);
    assert_eq!(a.closed_because(), Some(Closed::Timeout));
}

#[test]
fn silence_triggers_a_keepalive() {
    let t = T0;
    let mut a = session(t);
    a.tick(t + 6 * SEC);

    let datagram = a.poll_transmit().unwrap();
    let Datagram::FrameSet(set) = Datagram::decode(&datagram).unwrap() else {
        unreachable!("keepalive is a frame set")
    };
    assert_eq!(set.frames[0].payload[0], ID_CONNECTED_PING);
}

#[test]
fn a_disconnect_closes_the_session() {
    let t = T0;
    let (mut a, mut b) = (session(t), session(t));
    a.close(t);
    pump(&mut a, &mut b, t);
    assert_eq!(b.state(), State::Closed);
    assert_eq!(a.state(), State::Closed);
    assert_eq!(a.closed_because(), Some(Closed::ByUs));
    assert_eq!(b.closed_because(), Some(Closed::ByPeer));
}

#[test]
fn a_closed_session_refuses_work() {
    let t = T0;
    let mut a = session(t);
    a.close(t);
    assert!(a.is_closed());
    assert_eq!(a.send(vec![1], t), Err(SessionError::Closed));
    assert_eq!(a.receive(&[0x80, 0, 0, 0], t), Err(SessionError::Closed));
}

#[test]
fn acknowledgements_collapse_into_runs() {
    let t = T0;
    let (mut a, mut b) = (session(t), session(t));
    for n in 0..5u8 {
        a.send(vec![0xfe, n], t).unwrap();
    }
    let datagrams: Vec<Vec<u8>> = std::iter::from_fn(|| a.poll_transmit()).collect();
    assert_eq!(datagrams.len(), 5);
    for i in [4usize, 0, 1, 3, 1] {
        let _ = b.receive(&datagrams[i], t);
    }
    b.tick(t);
    let ack = b.poll_transmit().unwrap();
    let Ok(Datagram::Ack(ack)) = Datagram::decode(&ack) else {
        unreachable!("an acknowledgement")
    };
    assert_eq!(ack.ranges, vec![(0, 1), (3, 4)]);
}

#[test]
fn an_unreachable_peer_is_given_up_on() {
    let t = T0;
    let mut a = session(t);
    a.send(vec![0xfe], t).unwrap();
    let mut now = t;
    for _ in 0..12 {
        now += 2 * SEC;
        a.receive(&[0xc0, 0, 0], now).ok();
        a.tick(now);
    }
    assert_eq!(a.state(), State::Closed);
    assert_eq!(a.closed_because(), Some(Closed::Unreachable));
}
