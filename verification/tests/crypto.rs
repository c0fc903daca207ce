use bedrock::crypto::agreement::{
    point_from_der, point_to_der, spki_prefix_bytes, AgreementError, Handshake, SessionKey,
    POINT_LEN, PUBLIC_KEY_DER_LEN, SALT_LEN,
};
use bedrock::crypto::probe::space;

#[test]
fn the_captured_key_prefix_is_accepted() {
    let mut der = spki_prefix_bytes();
    der.push(0x04);
    der.extend(std::iter::repeat_n(0x11, POINT_LEN - 1));
    assert_eq!(point_from_der(&der).unwrap().len(), POINT_LEN);
}

#[test]
fn a_key_of_another_curve_is_refused() {
    let mut der = spki_prefix_bytes();
    der[18] = 0x03;
    der.push(0x04);
    der.extend(std::iter::repeat_n(0x11, POINT_LEN - 1));
    assert_eq!(
        point_from_der(&der).unwrap_err(),
        AgreementError::NotP384PublicKey
    );
}

#[test]
fn a_compressed_point_is_refused() {
    let mut der = spki_prefix_bytes();
    der.push(0x02);
    der.extend(std::iter::repeat_n(0x11, POINT_LEN - 1));
    assert_eq!(
        point_from_der(&der).unwrap_err(),
        AgreementError::NotUncompressed
    );
}

#[test]
fn a_key_of_the_wrong_length_is_refused() {
    for len in [0, 23, 119, 121, 200] {
        let der = vec![0u8; len];
        assert!(point_from_der(&der).is_err(), "{len}");
    }
}

#[test]
fn the_space_is_small_enough_to_search_on_a_live_connection() {
    assert_eq!(space(), 32);
}

#[test]
fn a_point_goes_into_der_and_comes_back_out() {
    let mut point = vec![0x04u8];
    point.extend(std::iter::repeat_n(0x5a, POINT_LEN - 1));
    let der = point_to_der(&point).unwrap();
    assert_eq!(der.len(), PUBLIC_KEY_DER_LEN);
    assert_eq!(&der[..spki_prefix_bytes().len()], spki_prefix_bytes().as_slice());
    assert_eq!(point_from_der(&der).unwrap(), point.as_slice());
    assert!(point_to_der(&point[..10]).is_err());
    let key = SessionKey::from_bytes([7; 32]);
    assert_eq!(key.as_bytes()[31], 7);
}

/// The property that matters: two sides that exchanged public keys and a salt end up
/// with the same key, and neither needed the other's private key.
#[test]
fn both_sides_derive_the_same_key() {
    let server = Handshake::new().unwrap();
    let client = Handshake::new().unwrap();

    let salt = *server.salt();
    let server_public = server.public_key_der().to_vec();
    let client_public = client.public_key_der().to_vec();

    let a = server.agree(&client_public, &salt).unwrap();
    let b = client.agree(&server_public, &salt).unwrap();
    assert!(a == b);
}

#[test]
fn a_different_salt_gives_a_different_key() {
    let server = Handshake::new().unwrap();
    let client = Handshake::new().unwrap();
    let server_public = server.public_key_der().to_vec();
    let client_public = client.public_key_der().to_vec();

    let a = server.agree(&client_public, b"salt one--------").unwrap();
    let b = client.agree(&server_public, b"salt two--------").unwrap();
    assert!(a != b);
}

#[test]
fn a_generated_key_is_the_shape_the_protocol_expects() {
    let handshake = Handshake::new().unwrap();
    assert_eq!(handshake.public_key_der().len(), PUBLIC_KEY_DER_LEN);
    assert_eq!(handshake.salt().len(), SALT_LEN);
    assert!(handshake.public_key_der().starts_with(&spki_prefix_bytes()));
}

#[test]
fn der_round_trips_through_the_point() {
    let handshake = Handshake::new().unwrap();
    let der = handshake.public_key_der().to_vec();
    let point = point_from_der(&der).unwrap();
    assert_eq!(point.len(), POINT_LEN);
    assert_eq!(point_to_der(point).unwrap(), der);
}

/// A point that is the right shape but not on the curve must be rejected by the curve,
/// not accepted into a derivation.
#[test]
fn a_point_off_the_curve_is_refused() {
    let handshake = Handshake::new().unwrap();

    let mut der = spki_prefix_bytes();
    der.push(0x04);
    der.extend(std::iter::repeat_n(0xaa, POINT_LEN - 1));

    assert!(matches!(
        handshake.agree(&der, b"salt------------"),
        Err(AgreementError::BadPeerKey)
    ));
}

/// A peer key that is not a P-384 SubjectPublicKeyInfo is refused as such, before the
/// curve sees it.
#[test]
fn a_malformed_peer_key_is_refused_before_the_curve_sees_it() {
    let handshake = Handshake::new().unwrap();
    assert!(matches!(
        handshake.agree(&[0u8; 10], b"salt------------"),
        Err(AgreementError::NotP384PublicKey)
    ));
}
