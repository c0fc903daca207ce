use bedrock::protocol::batch::{decode, encode, Packet, MARKER};

#[test]
fn a_batch_round_trips() {
    let packets = vec![Packet::new(193, vec![0, 0, 3, 233]), Packet::new(143, vec![1])];
    assert_eq!(decode(&encode(&packets)).unwrap(), packets);
}

#[test]
fn the_captured_login_opener_decodes() {
    let raw = [0xfe, 0x06, 0xc1, 0x01, 0x00, 0x00, 0x03, 0xe9];
    let packets = decode(&raw).unwrap();
    assert_eq!(packets.len(), 1);
    assert_eq!(packets[0].id, 193);
    assert_eq!(packets[0].sender, 0);
    assert_eq!(packets[0].body, vec![0x00, 0x00, 0x03, 0xe9]);
}

#[test]
fn we_encode_what_the_client_encoded() {
    let encoded = encode(&[Packet::new(193, vec![0x00, 0x00, 0x03, 0xe9])]);
    assert_eq!(encoded, vec![0xfe, 0x06, 0xc1, 0x01, 0x00, 0x00, 0x03, 0xe9]);
}

#[test]
fn subclient_fields_survive_the_header() {
    let packet = Packet {
        id: 193,
        sender: 2,
        target: 1,
        body: vec![7],
    };
    let decoded = decode(&encode(std::slice::from_ref(&packet))).unwrap();
    assert_eq!(decoded[0], packet);
}

#[test]
fn an_empty_batch_decodes_to_nothing() {
    assert_eq!(decode(&[MARKER]).unwrap(), vec![]);
}

#[test]
fn a_packet_with_no_body_is_fine() {
    let packets = vec![Packet::new(5, vec![])];
    assert_eq!(decode(&encode(&packets)).unwrap(), packets);
}

#[test]
fn a_length_beyond_the_batch_fails_cleanly() {
    let raw = [0xfe, 0x40, 0xc1, 0x01];
    assert!(decode(&raw).is_err());
}

#[test]
fn a_missing_marker_is_refused() {
    assert!(decode(&[0x00, 0x01, 0x02]).is_err());
    assert!(decode(&[]).is_err());
}

#[test]
fn truncated_batches_never_panic() {
    let full = encode(&[Packet::new(193, vec![1, 2, 3, 4]), Packet::new(1, vec![9])]);
    for n in 0..full.len() {
        let _ = decode(&full[..n]);
    }
}
