use bedrock::raknet::datagram::{
    Acknowledgement, Datagram, DatagramError, FrameSet, FLAG_ACK, FLAG_NACK, FLAG_VALID,
};
use bedrock::raknet::frame::{Frame, Reliability};
use bedrock::raknet::offline::{
    decode_unconnected_pong, encode_unconnected_ping, OfflineError, ID_UNCONNECTED_PING,
    ID_UNCONNECTED_PONG,
};
use bedrock::raknet::wire::Writer;
use bedrock::raknet::MAGIC;

fn round_trip(datagram: &Datagram) -> Datagram {
    let mut w = Writer::new();
    datagram.encode(&mut w);
    Datagram::decode(&w.finish()).unwrap()
}

#[test]
fn frame_set_round_trips() {
    let datagram = Datagram::FrameSet(FrameSet {
        sequence: 0x00_1234,
        frames: vec![
            Frame::new(Reliability::Unreliable, b"one".to_vec()),
            Frame::new(Reliability::ReliableOrdered, b"two".to_vec()),
        ],
    });
    assert_eq!(round_trip(&datagram), datagram);
}

#[test]
fn ack_and_nack_are_distinguished() {
    let ranges = Acknowledgement {
        ranges: vec![(1, 1), (5, 9)],
    };
    assert_eq!(
        round_trip(&Datagram::Ack(ranges.clone())),
        Datagram::Ack(ranges.clone())
    );
    assert_eq!(
        round_trip(&Datagram::Nack(ranges.clone())),
        Datagram::Nack(ranges)
    );
}

#[test]
fn single_records_are_shorter_than_ranges() {
    let mut single = Writer::new();
    Datagram::Ack(Acknowledgement::single(7)).encode(&mut single);
    let mut range = Writer::new();
    Datagram::Ack(Acknowledgement {
        ranges: vec![(7, 8)],
    })
    .encode(&mut range);
    assert_eq!(single.len() + 3, range.len());
}

#[test]
fn contains_covers_the_whole_range() {
    let ack = Acknowledgement {
        ranges: vec![(10, 12), (20, 20)],
    };
    for seq in [10, 11, 12, 20] {
        assert!(ack.contains(seq), "{seq}");
    }
    for seq in [9, 13, 19, 21] {
        assert!(!ack.contains(seq), "{seq}");
    }
}

#[test]
fn a_huge_range_stays_one_range() {
    let mut w = Writer::new();
    w.u8(FLAG_VALID | FLAG_ACK).u16(1).u8(0).u24(0).u24(0xff_ffff);
    let Datagram::Ack(ack) = Datagram::decode(&w.finish()).unwrap() else {
        unreachable!("encoded as an ack")
    };
    assert_eq!(ack.ranges, vec![(0, 0xff_ffff)]);
    assert!(ack.contains(8_000_000));
}

#[test]
fn a_lying_record_count_fails_cleanly() {
    let mut w = Writer::new();
    w.u8(FLAG_VALID | FLAG_ACK).u16(u16::MAX).u8(1).u24(3);
    assert!(matches!(
        Datagram::decode(&w.finish()),
        Err(DatagramError::Truncated(_))
    ));
}

#[test]
fn offline_traffic_is_not_mistaken_for_a_datagram() {
    assert_eq!(
        Datagram::decode(&[0x01, 0, 0, 0]),
        Err(DatagramError::NotConnected(0x01))
    );
}

#[test]
fn empty_input_fails_cleanly() {
    assert!(matches!(
        Datagram::decode(&[]),
        Err(DatagramError::Truncated(_))
    ));
}

#[test]
fn a_broken_frame_fails_the_datagram() {
    let mut w = Writer::new();
    w.u8(FLAG_VALID).u24(1).u8(0).u16(0);
    assert!(matches!(
        Datagram::decode(&w.finish()),
        Err(DatagramError::Frame(_))
    ));
}

#[test]
fn datagram_truncated_prefixes_never_panic() {
    let datagram = Datagram::FrameSet(FrameSet {
        sequence: 9,
        frames: vec![Frame::new(Reliability::ReliableOrdered, b"payload".to_vec())],
    });
    let mut w = Writer::new();
    datagram.encode(&mut w);
    let full = w.finish();
    for n in 0..full.len() {
        let _ = Datagram::decode(&full[..n]);
    }
}

#[test]
fn a_nack_has_its_own_flag_and_a_frame_set_its_header() {
    let mut w = Writer::new();
    Datagram::Nack(Acknowledgement::single(5)).encode(&mut w);
    assert_eq!(w.finish(), vec![FLAG_VALID | FLAG_NACK, 0, 1, 1, 5, 0, 0]);
    let mut w = Writer::new();
    Datagram::FrameSet(FrameSet { sequence: 0x010203, frames: vec![] }).encode(&mut w);
    assert_eq!(w.finish(), vec![FLAG_VALID, 0x03, 0x02, 0x01]);
}

fn synthetic_pong(advertisement: &str) -> Vec<u8> {
    let mut w = Writer::new();
    w.u8(ID_UNCONNECTED_PONG).i64(42).i64(-7).bytes(&MAGIC);
    let bytes = advertisement.as_bytes();
    let len = u16::try_from(bytes.len()).expect("test string fits in u16");
    w.bytes(&len.to_be_bytes()).bytes(bytes);
    w.finish()
}

#[test]
fn ping_has_the_expected_shape() {
    let ping = encode_unconnected_ping(1, 2);
    assert_eq!(ping.len(), 1 + 8 + 16 + 8);
    assert_eq!(ping[0], ID_UNCONNECTED_PING);
    assert_eq!(&ping[9..25], &MAGIC);
}

#[test]
fn decodes_a_pong() {
    let pong = decode_unconnected_pong(&synthetic_pong("MCPE;hello;800;1.21.0")).unwrap();
    assert_eq!(pong.time, 42);
    assert_eq!(pong.server_guid, -7);
    assert_eq!(pong.advertisement, "MCPE;hello;800;1.21.0");
}

#[test]
fn empty_advertisement_is_valid() {
    let pong = decode_unconnected_pong(&synthetic_pong("")).unwrap();
    assert_eq!(pong.advertisement, "");
}

#[test]
fn rejects_wrong_packet_id() {
    let mut buf = synthetic_pong("x");
    buf[0] = ID_UNCONNECTED_PING;
    assert_eq!(
        decode_unconnected_pong(&buf),
        Err(OfflineError::UnexpectedId {
            expected: ID_UNCONNECTED_PONG,
            found: ID_UNCONNECTED_PING,
        })
    );
}

#[test]
fn rejects_bad_magic() {
    let mut buf = synthetic_pong("x");
    buf[20] ^= 0xff;
    assert_eq!(decode_unconnected_pong(&buf), Err(OfflineError::BadMagic));
}

#[test]
fn rejects_length_longer_than_buffer() {
    let mut buf = synthetic_pong("x");
    let n = buf.len();
    buf[n - 3..n - 1].copy_from_slice(&u16::MAX.to_be_bytes());
    assert!(matches!(
        decode_unconnected_pong(&buf),
        Err(OfflineError::Truncated(_))
    ));
}

#[test]
fn rejects_invalid_utf8() {
    let mut buf = synthetic_pong("xx");
    let n = buf.len();
    buf[n - 2..].copy_from_slice(&[0xff, 0xfe]);
    assert_eq!(decode_unconnected_pong(&buf), Err(OfflineError::InvalidUtf8));
}

#[test]
fn rejects_empty_datagram() {
    assert!(matches!(
        decode_unconnected_pong(&[]),
        Err(OfflineError::Truncated(_))
    ));
}

#[test]
fn the_ping_carries_time_magic_and_guid_in_order() {
    let ping = encode_unconnected_ping(0x0102, -1);
    assert_eq!(&ping[1..9], &[0, 0, 0, 0, 0, 0, 1, 2]);
    assert_eq!(&ping[25..], &[0xff; 8]);
}
