use bedrock::raknet::session::Closed;
use bedrock::crypto::agreement::{AgreementError, SessionKey};
use bedrock::crypto::cipher::{Cipher, CipherError};
use bedrock::crypto::jwt::JwtError;
use bedrock::crypto::probe::{Checksum, Derivation, Iv, Variant};
use bedrock::protocol::bytes::DecodeError as CodecError;
use bedrock::protocol::login::LoginError;
use bedrock::raknet::address::AddressError;
use bedrock::raknet::connect::ConnectError;
use bedrock::raknet::datagram::DatagramError;
use bedrock::raknet::frame::FrameError;
use bedrock::raknet::order::OutOfWindow;
use bedrock::raknet::session::SessionError;
use bedrock::raknet::split::SplitError;
use bedrock::raknet::wire::DecodeError;
use bedrock::server::identity::IdentityError;
use bedrock::text::head;

#[test]
fn a_short_read_names_what_it_wanted() {
    let e = DecodeError { needed: 4, available: 1 };
    assert_eq!(e.to_text(), "unexpected end of input: needed 4 byte(s), 1 available");
    assert_eq!(
        FrameError::Truncated(e).to_text(),
        "unexpected end of input: needed 4 byte(s), 1 available"
    );
    assert_eq!(FrameError::EmptyBody.to_text(), "frame declares a zero-length body");
}

#[test]
fn ids_and_flags_read_as_hex() {
    assert_eq!(
        DatagramError::NotConnected(0x05).to_text(),
        "first byte 0x05 is not a connected datagram"
    );
    assert_eq!(
        ConnectError::UnexpectedId { expected: 0x05, found: 0x1c }.to_text(),
        "expected packet id 0x05, found 0x1c"
    );
    assert_eq!(ConnectError::BadMagic.to_text(), "RakNet magic missing or wrong");
    assert_eq!(
        AddressError::UnsupportedVersion(9).to_text(),
        "address version 9 unsupported (IPv4 only)"
    );
}

#[test]
fn session_errors_read_as_what_they_wrap() {
    assert_eq!(
        SessionError::Split(SplitError::Inconsistent { count: 3, index: 7 }).to_text(),
        "fragment 7 of 3 is not a valid position"
    );
    assert_eq!(
        SessionError::Order(OutOfWindow { index: 900, expected: 2 }).to_text(),
        "order index 900 is outside the window at 2"
    );
    assert_eq!(SessionError::OutboxFull.to_text(), "outbox is full");
    assert_eq!(SessionError::Closed.to_text(), "session is closed");
}

#[test]
fn crypto_errors_read_plainly() {
    assert_eq!(CipherError::BadChecksum.to_text(), "checksum did not match");
    assert_eq!(AgreementError::BadPeerKey.to_text(), "peer public key is not a valid curve point");
    assert_eq!(
        JwtError::Expired { expiry: 10, now: -5 }.to_text(),
        "expired at 10, now -5"
    );
    assert_eq!(JwtError::MalformedSegment("claims").to_text(), "claims segment did not decode");
    assert_eq!(
        IdentityError::NoKeys.to_text(),
        "server has no issuer keys, so no login can be verified"
    );
    assert_eq!(
        IdentityError::Token(JwtError::UnknownKey("k".to_owned())).to_text(),
        "no published key with id k"
    );
}

#[test]
fn a_cipher_describes_its_counters_and_not_its_key() {
    let mut c = Cipher::new(&SessionKey::from_bytes([1; 32]));
    c.encrypt(b"x");
    assert_eq!(c.to_text(), "Cipher(sent: 1, received: 0)");
}

#[test]
fn a_variant_names_its_four_choices() {
    let v = Variant {
        derivation: Derivation::SaltFirst,
        iv: Iv::KeyPrefix,
        checksum: Checksum::CounterPlaintextKey,
        counter_start: 0,
    };
    assert_eq!(
        v.to_text(),
        "derivation=SaltFirst iv=KeyPrefix checksum=CounterPlaintextKey counter_start=0"
    );
}

#[test]
fn codec_errors_read_plainly() {
    assert_eq!(
        CodecError::UnexpectedEnd { needed: 2, available: 0 }.to_text(),
        "needed 2 byte(s), 0 available"
    );
    assert_eq!(CodecError::VarintTooLong.to_text(), "varint longer than 5 bytes");
    assert_eq!(
        LoginError::TooLarge { section: "identity", declared: 9, limit: 8 }.to_text(),
        "identity declared 9 bytes, limit is 8"
    );
    assert_eq!(LoginError::NotUtf8("identity").to_text(), "identity is not valid UTF-8");
}

#[test]
fn the_head_of_a_packet_is_hex() {
    assert_eq!(head(&[]), "");
    assert_eq!(head(&[0xde, 0xad, 0x0f]), "de ad 0f");
    let long = [0xabu8; 50];
    let text = head(&long);
    assert!(text.ends_with("ab  ... +2 bytes"));
    assert_eq!(text.len(), 48 * 3 - 1 + "  ... +2 bytes".len());
}

/// A departure reads with its label, and with a meaning except when we closed it.
#[test]
fn a_departure_reads_with_its_meaning() {
    assert_eq!(
        Closed::Timeout.report(),
        ("silencio".to_string(), Some("20s sem falar: ficou esperando, nao recusou".to_string()))
    );
    assert_eq!(Closed::ByUs.report(), ("fechado por nos".to_string(), None));
}
