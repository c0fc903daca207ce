use bedrock::protocol::bytes::{DecodeError, Reader, Writer};

#[test]
fn varints_round_trip() {
    for value in [0, 1, 127, 128, 300, 16_383, 16_384, 193, u32::MAX] {
        let mut w = Writer::new();
        w.varint(value);
        let buf = w.finish();
        let mut r = Reader::new(&buf);
        assert_eq!(r.varint().unwrap(), value, "{value}");
        assert!(r.is_empty());
    }
}

#[test]
fn varint_193_matches_the_capture() {
    let mut w = Writer::new();
    w.varint(193);
    assert_eq!(w.finish(), vec![0xc1, 0x01]);
}

#[test]
fn varints_use_the_fewest_bytes() {
    for (value, len) in [(0u32, 1), (127, 1), (128, 2), (16_383, 2), (16_384, 3)] {
        let mut w = Writer::new();
        w.varint(value);
        assert_eq!(w.len(), len, "{value}");
    }
}

#[test]
fn an_endless_varint_is_refused() {
    let buf = [0x80u8; 32];
    assert_eq!(Reader::new(&buf).varint(), Err(DecodeError::VarintTooLong));
}

#[test]
fn a_truncated_varint_fails_cleanly() {
    let buf = [0x80u8, 0x80];
    assert!(matches!(
        Reader::new(&buf).varint(),
        Err(DecodeError::UnexpectedEnd { .. })
    ));
}

#[test]
fn little_endian_is_the_default() {
    let mut w = Writer::new();
    w.u16(0x1234);
    assert_eq!(w.finish(), vec![0x34, 0x12]);
}

#[test]
fn client_network_version_is_big_endian() {
    let mut w = Writer::new();
    w.u32_be(1001);
    assert_eq!(w.finish(), vec![0x00, 0x00, 0x03, 0xe9]);
}

#[test]
fn prefixed_slices_round_trip() {
    let mut w = Writer::new();
    w.prefixed(b"hello").prefixed(b"");
    let buf = w.finish();
    let mut r = Reader::new(&buf);
    assert_eq!(r.prefixed().unwrap(), b"hello");
    assert_eq!(r.prefixed().unwrap(), b"");
    assert!(r.is_empty());
}

#[test]
fn a_prefix_longer_than_the_buffer_fails_cleanly() {
    let mut w = Writer::new();
    w.varint(9999).bytes(b"short");
    assert!(Reader::new(&w.finish()).prefixed().is_err());
}

/// A float travels as its IEEE-754 bits in little-endian order.
#[test]
fn floats_round_trip() {
    let mut w = Writer::new();
    w.u32(0.5f32.to_bits());
    let back = f32::from_bits(Reader::new(&w.finish()).u32().unwrap());
    assert!((back - 0.5).abs() < f32::EPSILON);
}

#[test]
fn zigzag_and_wide_integers_have_exact_bytes() {
    let mut w = Writer::new();
    w.zigzag32(-1).zigzag32(1).u64(0x0102_0304_0506_0708);
    assert_eq!(
        w.finish(),
        vec![0x01, 0x02, 0x08, 0x07, 0x06, 0x05, 0x04, 0x03, 0x02, 0x01]
    );
    let buf = [0x03u8, 0x04];
    let mut r = Reader::new(&buf);
    assert_eq!(r.zigzag32().unwrap(), -2);
    assert_eq!(r.zigzag32().unwrap(), 2);
    assert_eq!(
        Reader::new(&[1u8, 2]).u32(),
        Err(DecodeError::UnexpectedEnd { needed: 4, available: 2 })
    );
}
