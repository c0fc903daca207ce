//! Key agreement's wire forms: a P-384 public key as a raw point and as the
//! SubjectPublicKeyInfo DER the handshake sends.
//!
//! The DER is matched as a constant rather than parsed: one curve is supported, its
//! encoding is fixed, and a DER parser would be attacker-facing surface to accept
//! exactly one byte string.
use crate::crypto::cipher::{sha256, sha256_of};
use crate::protocol::bytes::Writer;
use vstd::prelude::*;

verus! {

/// Bytes of a P-384 public key in SubjectPublicKeyInfo DER.
pub const PUBLIC_KEY_DER_LEN: usize = 120;

/// Bytes of an uncompressed P-384 point: the `0x04` tag and two 48-byte coordinates.
pub const POINT_LEN: usize = 97;

/// Bytes of salt mixed into the derivation.
pub const SALT_LEN: usize = 16;

/// The DER that precedes the point in a secp384r1 SubjectPublicKeyInfo.
pub open spec fn spki_prefix() -> Seq<u8> {
    seq![
        0x30u8,
        0x76,
        0x30,
        0x10,
        0x06,
        0x07,
        0x2a,
        0x86,
        0x48,
        0xce,
        0x3d,
        0x02,
        0x01,
        0x06,
        0x05,
        0x2b,
        0x81,
        0x04,
        0x00,
        0x22,
        0x03,
        0x62,
        0x00,
    ]
}

/// The DER that precedes the point, as bytes.
pub fn spki_prefix_bytes() -> (p: Vec<u8>)
    ensures
        p@ == spki_prefix(),
{
    let p = vec![
        0x30u8,
        0x76,
        0x30,
        0x10,
        0x06,
        0x07,
        0x2a,
        0x86,
        0x48,
        0xce,
        0x3d,
        0x02,
        0x01,
        0x06,
        0x05,
        0x2b,
        0x81,
        0x04,
        0x00,
        0x22,
        0x03,
        0x62,
        0x00,
    ];
    proof {
        assert(p@ =~= spki_prefix());
    }
    p
}

/// Why key agreement failed.
#[derive(Debug, Clone, Copy, PartialEq, Eq, Structural)]
pub enum AgreementError {
    /// The key was not a secp384r1 SubjectPublicKeyInfo.
    NotP384PublicKey,
    /// The point was not the uncompressed form.
    NotUncompressed,
    /// Generating a key or salt failed.
    NoRandomness,
    /// The peer's key was rejected by the curve.
    BadPeerKey,
}

/// What extracting the point from a SubjectPublicKeyInfo yields.
pub open spec fn point_of(der: Seq<u8>) -> Result<Seq<u8>, AgreementError> {
    if der.len() != 120 || der.take(23) != spki_prefix() {
        Err(AgreementError::NotP384PublicKey)
    } else if der[23] != 0x04 {
        Err(AgreementError::NotUncompressed)
    } else {
        Ok(der.skip(23))
    }
}

/// Extracts the raw point from a SubjectPublicKeyInfo.
pub fn point_from_der(der: &[u8]) -> (res: Result<&[u8], AgreementError>)
    ensures
        match point_of(der@) {
            Ok(p) => res matches Ok(x) && x@ == p,
            Err(e) => res == Err::<&[u8], AgreementError>(e),
        },
{
    if der.len() != PUBLIC_KEY_DER_LEN {
        return Err(AgreementError::NotP384PublicKey);
    }
    let prefix = spki_prefix_bytes();
    let head = vstd::slice::slice_subrange(der, 0, 23);
    proof {
        assert(head@ =~= der@.take(23));
    }
    if !crate::blocks::bytes_equal(head, prefix.as_slice()) {
        return Err(AgreementError::NotP384PublicKey);
    }
    let point = vstd::slice::slice_subrange(der, 23, der.len());
    proof {
        assert(point@ =~= der@.skip(23));
        assert(point@[0] == der@[23]);
    }
    if point[0] != 0x04 {
        return Err(AgreementError::NotUncompressed);
    }
    Ok(point)
}

/// What wrapping a raw point in a SubjectPublicKeyInfo yields.
pub open spec fn der_of(point: Seq<u8>) -> Result<Seq<u8>, AgreementError> {
    if point.len() != 97 || point[0] != 0x04 {
        Err(AgreementError::NotUncompressed)
    } else {
        Ok(spki_prefix() + point)
    }
}

/// Wraps a raw point in a SubjectPublicKeyInfo, the form the handshake sends.
pub fn point_to_der(point: &[u8]) -> (res: Result<Vec<u8>, AgreementError>)
    ensures
        match der_of(point@) {
            Ok(d) => res matches Ok(x) && x@ == d,
            Err(e) => res == Err::<Vec<u8>, AgreementError>(e),
        },
{
    if point.len() != POINT_LEN || point[0] != 0x04 {
        return Err(AgreementError::NotUncompressed);
    }
    let mut der = spki_prefix_bytes();
    let mut i: usize = 0;
    while i < point.len()
        invariant
            i <= point@.len(),
            der@ == spki_prefix() + point@.take(i as int),
        decreases point@.len() - i,
    {
        der.push(point[i]);
        proof {
            assert(point@.take(i + 1) =~= point@.take(i as int).push(point@[i as int]));
        }
        i = i + 1;
    }
    proof {
        assert(point@.take(i as int) =~= point@);
    }
    Ok(der)
}

/// A point wrapped and unwrapped again is the point, and a key unwrapped and wrapped
/// again is the key.
pub proof fn lemma_der_round_trip(point: Seq<u8>, der: Seq<u8>)
    ensures
        der_of(point) matches Ok(d) ==> point_of(d) == Ok::<Seq<u8>, AgreementError>(point),
        point_of(der) matches Ok(p) ==> der_of(p) == Ok::<Seq<u8>, AgreementError>(der),
{
    if let Ok(d) = der_of(point) {
        assert(d.take(23) =~= spki_prefix());
        assert(d.skip(23) =~= point);
        assert(d[23] == point[0]);
    }
    if let Ok(p) = point_of(der) {
        assert(spki_prefix() + p =~= der);
        assert(p[0] == der[23]);
    }
}

/// The symmetric key both sides end up with. It has no `Debug`: a key that reaches a
/// log has left the process.
#[derive(Clone, PartialEq, Eq)]
pub struct SessionKey([u8; 32]);

impl View for SessionKey {
    type V = Seq<u8>;

    closed spec fn view(&self) -> Seq<u8> {
        self.0@
    }
}

impl SessionKey {
    /// A key from its bytes, for a key agreed elsewhere.
    pub fn from_bytes(bytes: [u8; 32]) -> (k: Self)
        ensures
            k@ == bytes@,
    {
        SessionKey(bytes)
    }

    /// The key bytes. Every caller of this is a place to check for leaks.
    pub fn as_bytes(&self) -> (b: &[u8; 32])
        ensures
            b@ == self@,
    {
        &self.0
    }
}

#[verifier::external_type_specification]
#[verifier::external_body]
pub struct ExEphemeralPrivateKey(ring::agreement::EphemeralPrivateKey);

/// A fresh P-384 private key from `EphemeralPrivateKey::generate` with ring's
/// `SystemRandom`. Random, so nothing is claimed of it; `None` when the system offers no
/// randomness.
#[verifier::external_body]
fn generate_private() -> Option<ring::agreement::EphemeralPrivateKey> {
    ring::agreement::EphemeralPrivateKey::generate(
        &ring::agreement::ECDH_P384,
        &ring::rand::SystemRandom::new(),
    ).ok()
}

/// The public half of a private key, from `compute_public_key`, as the point bytes.
/// Nothing is claimed of it: the shape is checked where it is used.
#[verifier::external_body]
fn public_point(private: &ring::agreement::EphemeralPrivateKey) -> Option<Vec<u8>> {
    private.compute_public_key().ok().map(|public| public.as_ref().to_vec())
}

/// Sixteen random bytes from `SystemRandom::fill`. Random, so nothing is claimed of
/// them; `None` when the system offers no randomness.
#[verifier::external_body]
fn random_salt() -> Option<[u8; SALT_LEN]> {
    let mut salt = [0u8; SALT_LEN];
    ring::rand::SecureRandom::fill(&ring::rand::SystemRandom::new(), &mut salt).ok()?;
    Some(salt)
}

/// ECDH over P-384 with `agreement::agree_ephemeral`, consuming the private key. The
/// shared secret depends on a random key, so nothing is claimed of it; `None` when the
/// peer's point is rejected by the curve.
#[verifier::external_body]
fn shared_secret(
    private: ring::agreement::EphemeralPrivateKey,
    peer_point: &[u8],
) -> Option<Vec<u8>> {
    let peer = ring::agreement::UnparsedPublicKey::new(&ring::agreement::ECDH_P384, peer_point);
    ring::agreement::agree_ephemeral(private, &peer, |secret| secret.to_vec()).ok()
}

/// One side's ephemeral key material, consumed by [`Handshake::agree`].
pub struct Handshake {
    private: ring::agreement::EphemeralPrivateKey,
    public_der: Vec<u8>,
    salt: [u8; SALT_LEN],
}

impl Handshake {
    /// Our public key, as the contracts see it.
    pub closed spec fn public_der_view(&self) -> Seq<u8> {
        self.public_der@
    }

    /// The salt, as the contracts see it.
    pub closed spec fn salt_view(&self) -> Seq<u8> {
        self.salt@
    }

    /// Generates an ephemeral key pair and a salt, from the system's randomness.
    ///
    /// Whatever key comes out, the public half handed to the peer is a well-formed
    /// secp384r1 SubjectPublicKeyInfo.
    pub fn new() -> (res: Result<Self, AgreementError>)
        ensures
            res matches Ok(h) ==> point_of(h.public_der_view()) is Ok
                && h.public_der_view().len() == PUBLIC_KEY_DER_LEN && h.salt_view().len()
                == SALT_LEN,
            res matches Err(e) ==> e == AgreementError::NoRandomness || e
                == AgreementError::NotUncompressed,
    {
        let private = match generate_private() {
            Some(private) => private,
            None => return Err(AgreementError::NoRandomness),
        };
        let point = match public_point(&private) {
            Some(point) => point,
            None => return Err(AgreementError::NoRandomness),
        };
        let public_der = point_to_der(point.as_slice())?;
        proof {
            lemma_der_round_trip(point@, public_der@);
        }
        let salt = match random_salt() {
            Some(salt) => salt,
            None => return Err(AgreementError::NoRandomness),
        };
        Ok(Handshake { private, public_der, salt })
    }

    /// Our public key, as the DER the peer expects.
    pub fn public_key_der(&self) -> (der: &[u8])
        ensures
            der@ == self.public_der_view(),
    {
        self.public_der.as_slice()
    }

    /// The salt to send alongside it. The peer needs it to derive the same key.
    pub fn salt(&self) -> (salt: &[u8; SALT_LEN])
        ensures
            salt@ == self.salt_view(),
    {
        &self.salt
    }

    /// Agrees with a peer's public key and derives the session key:
    /// `SHA-256(salt || shared secret)`.
    ///
    /// Takes the salt rather than using our own so the same code works on both sides:
    /// the side that receives a handshake derives with the salt it was sent. A peer key
    /// that is not a P-384 SubjectPublicKeyInfo is refused before the curve sees it.
    pub fn agree(self, peer_der: &[u8], salt: &[u8]) -> (res: Result<SessionKey, AgreementError>)
        ensures
            point_of(peer_der@) matches Err(e) ==> res == Err::<SessionKey, AgreementError>(e),
            point_of(peer_der@) is Ok ==> match res {
                Ok(key) => exists|secret: Seq<u8>| key@ == sha256_of(salt@ + secret),
                Err(e) => e == AgreementError::BadPeerKey,
            },
    {
        let peer_point = point_from_der(peer_der)?;
        let secret = match shared_secret(self.private, peer_point) {
            Some(secret) => secret,
            None => return Err(AgreementError::BadPeerKey),
        };
        let mut w = Writer::new();
        w.bytes(salt);
        w.bytes(secret.as_slice());
        let input = w.finish();
        let key = sha256(input.as_slice());
        Ok(SessionKey(key))
    }
}

} // verus!
