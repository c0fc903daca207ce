use bedrock::crypto::agreement::SessionKey;
use bedrock::crypto::cipher::{checksum, open, Cipher, CipherError, CHECKSUM_LEN};

/// Both ends of one session: the same agreed key on each side.
fn pair() -> (Cipher, Cipher) {
    let key = SessionKey::from_bytes([0x5a; 32]);
    let same = SessionKey::from_bytes([0x5a; 32]);
    (Cipher::new(&key), Cipher::new(&same))
}

fn other_pair() -> (Cipher, Cipher) {
    let key = SessionKey::from_bytes([0xa5; 32]);
    (Cipher::new(&key), Cipher::new(&key))
}

#[test]
fn a_packet_round_trips() {
    let (mut a, mut b) = pair();
    let plaintext = b"\xff\x01\x04".to_vec();
    let encrypted = a.encrypt(&plaintext);
    assert_eq!(b.decrypt(&encrypted).unwrap(), plaintext);
}

/// The arithmetic that identified the mode: three bytes in, eleven out.
#[test]
fn the_length_matches_what_the_client_sent() {
    let (mut a, _) = pair();
    let encrypted = a.encrypt(b"\xff\x01\x04");
    assert_eq!(encrypted.len(), 3 + CHECKSUM_LEN);
    assert_eq!(encrypted.len(), 11, "the client's payload was 0xfe plus eleven");
}

/// One stream, not one per packet: the same plaintext encrypts differently the second
/// time.
#[test]
fn the_stream_carries_across_packets() {
    let (mut a, mut b) = pair();
    let first = a.encrypt(b"same");
    let second = a.encrypt(b"same");
    assert_ne!(first, second);

    assert_eq!(b.decrypt(&first).unwrap(), b"same");
    assert_eq!(b.decrypt(&second).unwrap(), b"same");
}

#[test]
fn many_packets_stay_in_step() {
    let (mut a, mut b) = pair();
    for n in 0..64u8 {
        let plaintext = vec![n; usize::from(n) + 1];
        let encrypted = a.encrypt(&plaintext);
        assert_eq!(b.decrypt(&encrypted).unwrap(), plaintext, "packet {n}");
    }
    assert_eq!(a.sent(), 64);
    assert_eq!(b.received(), 64);
}

#[test]
fn an_empty_packet_still_carries_a_checksum() {
    let (mut a, mut b) = pair();
    let encrypted = a.encrypt(b"");
    assert_eq!(encrypted.len(), CHECKSUM_LEN);
    assert!(b.decrypt(&encrypted).unwrap().is_empty());
}

#[test]
fn a_tampered_packet_is_refused() {
    let (mut a, mut b) = pair();
    let mut encrypted = a.encrypt(b"payload");
    encrypted[0] ^= 0x01;
    assert_eq!(b.decrypt(&encrypted), Err(CipherError::BadChecksum));
}

/// A packet delivered twice must not verify: the counter has already moved.
#[test]
fn a_replayed_packet_is_refused() {
    let (mut a, mut b) = pair();
    let encrypted = a.encrypt(b"once");
    assert!(b.decrypt(&encrypted).is_ok());
    assert_eq!(b.decrypt(&encrypted), Err(CipherError::BadChecksum));
}

#[test]
fn a_packet_shorter_than_its_checksum_is_refused() {
    let (_, mut b) = pair();
    assert_eq!(b.decrypt(&[0u8; 7]), Err(CipherError::TooShort));
    assert_eq!(b.decrypt(&[]), Err(CipherError::TooShort));
}

/// The wrong key fails at the checksum rather than yielding plausible rubbish.
#[test]
fn a_different_key_does_not_decrypt() {
    let (mut a, _) = pair();
    let (_, mut other) = other_pair();
    let encrypted = a.encrypt(b"secret");
    assert_eq!(other.decrypt(&encrypted), Err(CipherError::BadChecksum));
}

#[test]
fn the_counter_does_not_appear_on_the_wire() {
    let (mut a, mut b) = pair();
    for _ in 0..300 {
        let encrypted = a.encrypt(b"x");
        assert_eq!(encrypted.len(), 1 + CHECKSUM_LEN, "no counter is sent");
        b.decrypt(&encrypted).unwrap();
    }
}

/// A failed decryption leaves the counter where it was; only a checksum that holds
/// moves it.
#[test]
fn a_refused_packet_does_not_move_the_counter() {
    let (mut a, mut b) = pair();
    let good = a.encrypt(b"one");
    let mut bad = good.clone();
    bad[1] ^= 0x80;
    assert_eq!(b.decrypt(&bad), Err(CipherError::BadChecksum));
    assert_eq!(b.received(), 0);
    assert_eq!(a.sent(), 1);
    let (_, mut fresh) = pair();
    assert_eq!(fresh.decrypt(&good).unwrap(), b"one");
    assert_eq!(fresh.received(), 1);
}

/// The checksum is the head of SHA-256 over the little-endian counter, the plaintext
/// and the key, and opening checks exactly that.
#[test]
fn the_checksum_frames_the_plaintext() {
    let key = [7u8; 32];
    let sum = checksum(3, b"abc", &key);
    // SHA-256 of (3u64 LE || "abc" || [7; 32]), computed independently.
    let mut input = 3u64.to_le_bytes().to_vec();
    input.extend_from_slice(b"abc");
    input.extend_from_slice(&key);
    let digest = ring::digest::digest(&ring::digest::SHA256, &input);
    assert_eq!(&sum[..], &digest.as_ref()[..8]);

    let mut sealed = b"abc".to_vec();
    sealed.extend_from_slice(&sum);
    assert_eq!(open(&sealed, 3, &key), Ok(b"abc".to_vec()));
    assert_eq!(open(&sealed, 4, &key), Err(CipherError::BadChecksum));
    assert_eq!(open(&sealed[..7], 3, &key), Err(CipherError::TooShort));
}
