use bedrock::crypto::agreement::SessionKey;
use bedrock::crypto::cipher::Cipher;
use bedrock::crypto::probe::{search, Checksum, Derivation, Iv};

/// The secret key agreement would have produced, and the salt sent beside it.
const SECRET: [u8; 48] = [0x3c; 48];
const SALT: [u8; 16] = *b"salt------------";

/// What our own cipher derives: SHA-256 of the salt, then the secret.
fn session() -> SessionKey {
    let mut input = SALT.to_vec();
    input.extend_from_slice(&SECRET);
    let mut key = [0u8; 32];
    key.copy_from_slice(ring::digest::digest(&ring::digest::SHA256, &input).as_ref());
    SessionKey::from_bytes(key)
}

/// The search must find the combination the shipped cipher uses, or it is testing
/// something other than what we send.
#[test]
fn it_finds_the_variant_our_own_cipher_uses() {
    let mut cipher = Cipher::new(&session());
    let plaintext = b"\xff\x01\x04";
    let ciphertext = cipher.encrypt(plaintext);

    let found = search(&SECRET, &SALT, &ciphertext).expect("our own cipher must be in the space");

    assert_eq!(found.plaintext, plaintext);
    assert_eq!(found.variant.derivation, Derivation::SaltFirst);
    assert_eq!(found.variant.iv, Iv::KeyPrefix);
    assert_eq!(found.variant.checksum, Checksum::CounterPlaintextKey);
    assert_eq!(found.variant.counter_start, 0);
}

#[test]
fn it_reports_nothing_for_bytes_that_are_not_ours() {
    assert!(search(&SECRET, &SALT, &[0u8; 11]).is_none());
}

#[test]
fn a_packet_too_short_to_hold_a_checksum_is_skipped() {
    assert!(search(&SECRET, &SALT, &[0u8; 4]).is_none());
}

/// A salt too short to serve as an IV skips those combinations rather than failing.
#[test]
fn a_short_salt_only_skips_the_salt_iv() {
    let short_salt = [9u8; 4];
    let mut input = short_salt.to_vec();
    input.extend_from_slice(&SECRET);
    let mut key = [0u8; 32];
    key.copy_from_slice(ring::digest::digest(&ring::digest::SHA256, &input).as_ref());
    let mut cipher = Cipher::new(&SessionKey::from_bytes(key));
    let ciphertext = cipher.encrypt(b"hello");
    let found = search(&SECRET, &short_salt, &ciphertext).unwrap();
    assert_eq!(found.variant.iv, Iv::KeyPrefix);
    assert_eq!(found.plaintext, b"hello");
}
