use bedrock::raknet::frame::{Frame, FrameError, Reliability, Split};
use bedrock::raknet::wire::{DecodeError, Reader, Writer};

#[test]
fn reads_big_endian() {
    let mut r = Reader::new(&[0x01, 0x12, 0x34, 0, 0, 0, 0, 0, 0, 0, 0x2a]);
    assert_eq!(r.u8().unwrap(), 0x01);
    assert_eq!(r.u16().unwrap(), 0x1234);
    assert_eq!(r.i64().unwrap(), 42);
    assert_eq!(r.remaining(), 0);
}

#[test]
fn short_read_reports_both_numbers() {
    let mut r = Reader::new(&[0x00, 0x01]);
    assert_eq!(
        r.i64(),
        Err(DecodeError {
            needed: 8,
            available: 2
        })
    );
}

#[test]
fn short_read_does_not_consume() {
    let mut r = Reader::new(&[0xaa, 0xbb]);
    assert!(r.bytes(9).is_err());
    assert_eq!(r.remaining(), 2, "a failed read must not advance the cursor");
    assert_eq!(r.u8().unwrap(), 0xaa);
}

#[test]
fn huge_length_does_not_overflow() {
    let mut r = Reader::new(&[0u8; 4]);
    assert!(r.bytes(usize::MAX).is_err());
}

#[test]
fn writer_round_trips_through_reader() {
    let mut w = Writer::new();
    w.u8(0x1c).i64(-1).bytes(&[0xde, 0xad]);
    let buf = w.finish();

    let mut r = Reader::new(&buf);
    assert_eq!(r.u8().unwrap(), 0x1c);
    assert_eq!(r.i64().unwrap(), -1);
    assert_eq!(r.bytes(2).unwrap(), &[0xde, 0xad]);
}

#[test]
fn triads_are_little_endian_and_zeros_pad() {
    let mut w = Writer::new();
    w.u24(0x0a0b0c).zeros(2).u32(0x01020304);
    let buf = w.finish();
    assert_eq!(buf, vec![0x0c, 0x0b, 0x0a, 0, 0, 1, 2, 3, 4]);
    let mut r = Reader::new(&buf);
    assert_eq!(r.u24().unwrap(), 0x0a0b0c);
    assert_eq!(r.array::<2>().unwrap(), [0, 0]);
    assert_eq!(r.u32().unwrap(), 0x01020304);
}

const ALL: [Reliability; 8] = [
    Reliability::Unreliable,
    Reliability::UnreliableSequenced,
    Reliability::Reliable,
    Reliability::ReliableOrdered,
    Reliability::ReliableSequenced,
    Reliability::UnreliableAckReceipt,
    Reliability::ReliableAckReceipt,
    Reliability::ReliableOrderedAckReceipt,
];

fn sample(reliability: Reliability, split: Option<Split>) -> Frame {
    Frame {
        reliability,
        reliable_index: 0x11_2233,
        sequence_index: 0x44_5566,
        order_index: 0x77_8899,
        order_channel: 7,
        split,
        payload: b"hello raknet".to_vec(),
    }
}

#[test]
fn every_reliability_round_trips() {
    for reliability in ALL {
        for split in [
            None,
            Some(Split {
                count: 3,
                id: 9,
                index: 1,
            }),
        ] {
            let frame = sample(reliability, split);
            let mut w = Writer::new();
            frame.encode(&mut w);
            let buf = w.finish();
            assert_eq!(buf.len(), frame.encoded_len(), "{reliability:?}");

            let decoded = Frame::decode(&mut Reader::new(&buf)).unwrap();
            assert_eq!(decoded.reliability, reliability);
            assert_eq!(decoded.payload, frame.payload);
            assert_eq!(decoded.split, split);
            if reliability.is_reliable() {
                assert_eq!(decoded.reliable_index, frame.reliable_index);
            }
            if reliability.is_sequenced() {
                assert_eq!(decoded.sequence_index, frame.sequence_index);
            }
            if reliability.is_ordered() {
                assert_eq!(decoded.order_index, frame.order_index);
                assert_eq!(decoded.order_channel, 7);
            }
        }
    }
}

#[test]
fn length_is_written_in_bits() {
    let mut w = Writer::new();
    Frame::new(Reliability::Unreliable, vec![0; 10]).encode(&mut w);
    let buf = w.finish();
    assert_eq!(u16::from_be_bytes([buf[1], buf[2]]), 80);
}

#[test]
fn frames_decode_back_to_back() {
    let mut w = Writer::new();
    Frame::new(Reliability::Unreliable, b"one".to_vec()).encode(&mut w);
    Frame::new(Reliability::ReliableOrdered, b"two".to_vec()).encode(&mut w);
    let buf = w.finish();

    let mut r = Reader::new(&buf);
    assert_eq!(Frame::decode(&mut r).unwrap().payload, b"one");
    assert_eq!(Frame::decode(&mut r).unwrap().payload, b"two");
    assert_eq!(r.remaining(), 0);
}

#[test]
fn partial_byte_lengths_round_up() {
    let mut w = Writer::new();
    w.u8(0).u16(9).bytes(&[0xaa, 0xbb]);
    let frame = Frame::decode(&mut Reader::new(&w.finish())).unwrap();
    assert_eq!(frame.payload.len(), 2);
}

#[test]
fn zero_length_body_is_rejected() {
    let mut w = Writer::new();
    w.u8(0).u16(0);
    assert_eq!(
        Frame::decode(&mut Reader::new(&w.finish())),
        Err(FrameError::EmptyBody)
    );
}

#[test]
fn a_lying_length_fails_cleanly() {
    let mut w = Writer::new();
    w.u8(0).u16(u16::MAX).bytes(b"short");
    assert!(matches!(
        Frame::decode(&mut Reader::new(&w.finish())),
        Err(FrameError::Truncated(_))
    ));
}

#[test]
fn truncated_headers_fail_cleanly() {
    let mut w = Writer::new();
    sample(
        Reliability::ReliableOrdered,
        Some(Split {
            count: 2,
            id: 1,
            index: 0,
        }),
    )
    .encode(&mut w);
    let full = w.finish();
    for n in 0..full.len() {
        assert!(Frame::decode(&mut Reader::new(&full[..n])).is_err(), "{n}");
    }
}

#[test]
fn header_len_matches_what_encode_writes() {
    for reliability in ALL {
        for split in [
            None,
            Some(Split {
                count: 1,
                id: 0,
                index: 0,
            }),
        ] {
            let frame = sample(reliability, split);
            assert_eq!(
                Frame::header_len(reliability, split.is_some()) + frame.payload.len(),
                frame.encoded_len()
            );
        }
    }
}

#[test]
fn the_flag_byte_carries_reliability_and_split() {
    for reliability in ALL {
        assert_eq!(Reliability::from_flags(reliability.value() << 5), Some(reliability));
    }
    let mut w = Writer::new();
    sample(Reliability::ReliableOrdered, Some(Split { count: 2, id: 1, index: 0 })).encode(&mut w);
    assert_eq!(w.finish()[0], (3 << 5) | 0x10);
    assert_eq!(Frame::header_len(Reliability::ReliableOrdered, true), 3 + 3 + 4 + 10);
}
