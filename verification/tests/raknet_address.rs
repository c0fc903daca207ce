use bedrock::raknet::address;
use bedrock::raknet::address::{is_empty_slot, read, read_raw, unassigned, Address, AddressError, IPV4_LEN};
use bedrock::raknet::connect::{
    decode_reply_2, encode_request_2, ConnectError, ID_OPEN_CONNECTION_REPLY_2,
    ID_OPEN_CONNECTION_REQUEST_2,
};
use bedrock::raknet::online::{
    decode_connection_request_accepted, encode_new_incoming_connection, OnlineError,
    ID_CONNECTION_REQUEST_ACCEPTED, ID_DISCONNECT, ID_NEW_INCOMING_CONNECTION,
};
use bedrock::raknet::wire::{Reader, Writer};
use bedrock::raknet::MAGIC;

fn v4(a: u8, b: u8, c: u8, d: u8, port: u16) -> Address {
    Address::V4 {
        octets: [a, b, c, d],
        port,
    }
}

#[test]
fn ipv4_round_trips() {
    for addr in [v4(192, 168, 0, 1, 19132), v4(8, 8, 8, 8, 53), v4(0, 0, 0, 0, 0)] {
        let mut w = Writer::new();
        address::write(&mut w, addr);
        let buf = w.finish();
        assert_eq!(buf.len(), IPV4_LEN);
        assert_eq!(read(&mut Reader::new(&buf)).unwrap(), addr, "{addr:?}");
    }
}

#[test]
fn octets_go_out_complemented() {
    let mut w = Writer::new();
    address::write(&mut w, v4(192, 168, 0, 1, 1));
    assert_eq!(w.finish(), vec![4, !192, !168, !0, !1, 0x00, 0x01]);
}

#[test]
fn unassigned_is_all_zeroes() {
    let mut w = Writer::new();
    address::write(&mut w, unassigned());
    assert_eq!(w.finish(), vec![4, 0, 0, 0, 0, 0, 0]);
}

#[test]
fn both_empty_slot_conventions_are_recognised() {
    for a in [v4(255, 255, 255, 255, 0), v4(0, 0, 0, 0, 0)] {
        assert!(is_empty_slot(a), "{a:?}");
    }
    for a in [v4(255, 255, 255, 255, 19132), v4(1, 2, 3, 4, 0), v4(8, 8, 8, 8, 53)] {
        assert!(!is_empty_slot(a), "{a:?}");
    }
    assert!(is_empty_slot(Address::V6 { octets: [0; 16], port: 0 }));
    assert!(!is_empty_slot(Address::V6 { octets: [255; 16], port: 0 }));
}

#[test]
fn non_ipv4_version_is_reported() {
    for tag in [6u8, 99] {
        let buf = [tag, 0, 0, 0, 0, 0, 0];
        assert_eq!(
            read(&mut Reader::new(&buf)),
            Err(AddressError::UnsupportedVersion(tag))
        );
    }
}

#[test]
fn truncated_address_fails_cleanly() {
    assert!(matches!(
        read(&mut Reader::new(&[4, 1, 2])),
        Err(AddressError::Truncated(_))
    ));
}

#[test]
fn the_two_readings_are_complements() {
    let buf = [4, 63, 87, 255, 254, 0x4a, 0xbc];
    let a = read(&mut Reader::new(&buf)).unwrap();
    let b = read_raw(&mut Reader::new(&buf)).unwrap();
    assert_eq!(a, v4(192, 168, 0, 1, 0x4abc));
    assert_eq!(b, v4(63, 87, 255, 254, 0x4abc));
    assert_eq!(a.port(), b.port());
}

#[test]
fn an_ipv6_address_goes_out_as_the_placeholder() {
    let mut w = Writer::new();
    address::write(
        &mut w,
        Address::V6 {
            octets: [1; 16],
            port: 19133,
        },
    );
    assert_eq!(w.finish(), vec![4, 0, 0, 0, 0, 0, 0]);
}

#[test]
fn request_2_grows_by_the_cookie() {
    let addr = v4(1, 2, 3, 4, 19132);
    let plain = encode_request_2(addr, 1400, 9, None);
    let with_cookie = encode_request_2(addr, 1400, 9, Some(1));
    assert_eq!(with_cookie.len(), plain.len() + 5);
    assert_eq!(plain[0], ID_OPEN_CONNECTION_REQUEST_2);
    assert_eq!(plain.len(), 1 + 16 + IPV4_LEN + 2 + 8);
}

#[test]
fn reply_2_round_trips() {
    let client = v4(203, 0, 113, 5, 41234);
    let mut w = Writer::new();
    w.u8(ID_OPEN_CONNECTION_REPLY_2).bytes(&MAGIC).i64(-3);
    address::write(&mut w, client);
    w.u16(1400).u8(0);

    let r = decode_reply_2(&w.finish()).unwrap();
    assert_eq!(r.server_guid, -3);
    assert_eq!(r.client_addr, client);
    assert_eq!(r.mtu, 1400);
    assert!(!r.encryption_enabled);
}

#[test]
fn a_reply_2_with_a_bad_address_names_it() {
    let mut w = Writer::new();
    w.u8(ID_OPEN_CONNECTION_REPLY_2).bytes(&MAGIC).i64(-3).u8(6);
    assert_eq!(
        decode_reply_2(&w.finish()),
        Err(ConnectError::Address(AddressError::UnsupportedVersion(6)))
    );
}

fn accepted(slots: usize) -> Vec<u8> {
    let mut w = Writer::new();
    w.u8(ID_CONNECTION_REQUEST_ACCEPTED);
    address::write(&mut w, v4(203, 0, 113, 5, 41234));
    w.u16(1);
    for _ in 0..slots {
        address::write(&mut w, unassigned());
    }
    w.i64(111).i64(222);
    w.finish()
}

#[test]
fn address_slot_count_is_inferred() {
    for slots in [10, 20] {
        let decoded = decode_connection_request_accepted(&accepted(slots)).unwrap();
        assert_eq!(decoded.system_addresses.len(), slots);
        assert_eq!(decoded.request_time, 111);
        assert_eq!(decoded.accepted_time, 222);
        assert_eq!(decoded.client_addr.port(), 41234);
    }
}

#[test]
fn new_incoming_connection_slots_are_placeholders() {
    let buf = encode_new_incoming_connection(v4(1, 2, 3, 4, 19132), 20, 1, 2);
    assert_eq!(buf.len(), 1 + IPV4_LEN * 21 + 16);
    assert_eq!(buf[0], ID_NEW_INCOMING_CONNECTION);
    assert_eq!(&buf[8..15], &[4, 0, 0, 0, 0, 0, 0]);
}

#[test]
fn wrong_id_is_reported() {
    let mut buf = accepted(20);
    buf[0] = ID_DISCONNECT;
    assert!(matches!(
        decode_connection_request_accepted(&buf),
        Err(OnlineError::UnexpectedId { .. })
    ));
}

#[test]
fn online_truncated_prefixes_never_panic() {
    let full = accepted(20);
    for n in 0..full.len() {
        let _ = decode_connection_request_accepted(&full[..n]);
    }
}
