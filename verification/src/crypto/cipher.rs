//! The encrypted packet stream.
//!
//! AES-256 in CFB8, one continuous cipher state per direction, with an 8-byte checksum
//! appended to each packet before encryption:
//!
//! ```text
//! plaintext || SHA-256(counter_le || plaintext || key)[..8]
//! ```
//!
//! The counter starts at zero and increments per packet, separately for each direction.
//! It is never sent: both sides count, so a lost or reordered packet desynchronises the
//! stream for good, which the reliable ordered transport underneath rules out.
//!
//! CFB8 is length-preserving: a three-byte packet travels as eleven bytes, its checksum
//! included, and nothing more.
use crate::crypto::agreement::SessionKey;
use crate::num::le64;
use crate::protocol::bytes::Writer;
use aes::cipher::{BlockDecryptMut, BlockEncryptMut, KeyIvInit};
use subtle::ConstantTimeEq;
use vstd::prelude::*;

verus! {

/// Bytes of checksum appended to every packet.
pub const CHECKSUM_LEN: usize = 8;

/// Why a packet did not decrypt.
#[derive(Debug, Clone, Copy, PartialEq, Eq, Structural)]
pub enum CipherError {
    /// Shorter than the checksum it must carry.
    TooShort,
    /// The checksum did not match: a corrupted packet, a desynchronised counter, or the
    /// wrong key.
    BadChecksum,
}

/// `cfb8::Encryptor` over AES-256, whose declaration Verus refuses (its bounds name
/// traits of the `cipher` crate), held opaque.
#[verifier::external_body]
struct EncryptCore {
    inner: cfb8::Encryptor<aes::Aes256>,
}

/// `cfb8::Decryptor` over AES-256, held opaque for the same reason.
#[verifier::external_body]
struct DecryptCore {
    inner: cfb8::Decryptor<aes::Aes256>,
}

/// The encrypting half of a CFB8 stream, with the key and IV it was made with and the
/// plaintext it has been fed so far.
pub struct EncryptStream {
    core: EncryptCore,
    key: Ghost<Seq<u8>>,
    iv: Ghost<Seq<u8>>,
    fed: Ghost<Seq<u8>>,
}

/// The decrypting half, with the ciphertext it has been fed so far.
pub struct DecryptStream {
    core: DecryptCore,
    key: Ghost<Seq<u8>>,
    iv: Ghost<Seq<u8>>,
    fed: Ghost<Seq<u8>>,
}

/// What AES-256 in CFB8 with `key` and `iv` makes of the plaintext `data`, from a
/// fresh stream.
pub uninterp spec fn cfb8_encrypted(key: Seq<u8>, iv: Seq<u8>, data: Seq<u8>) -> Seq<u8>;

/// What AES-256 in CFB8 with `key` and `iv` makes of the ciphertext `data`, decrypting
/// from a fresh stream.
pub uninterp spec fn cfb8_decrypted(key: Seq<u8>, iv: Seq<u8>, data: Seq<u8>) -> Seq<u8>;

/// The SHA-256 digest of `input`.
pub uninterp spec fn sha256_of(input: Seq<u8>) -> Seq<u8>;

/// SHA-256, from `ring::digest::digest`. Claimed: the 32-byte digest of the input,
/// the same for the same input.
#[verifier::external_body]
pub(crate) fn sha256(input: &[u8]) -> (d: [u8; 32])
    ensures
        d@ == sha256_of(input@),
{
    let mut out = [0u8; 32];
    out.copy_from_slice(ring::digest::digest(&ring::digest::SHA256, input).as_ref());
    out
}

/// Slice comparison from `subtle::ConstantTimeEq::ct_eq`: true exactly when the two
/// slices have the same length and the same bytes, in time that does not depend on
/// where they differ.
#[verifier::external_body]
fn constant_time_eq(a: &[u8], b: &[u8]) -> (same: bool)
    ensures
        same == (a@ == b@),
{
    bool::from(a.ct_eq(b))
}

/// A CFB8 encryptor from `cfb8::Encryptor::new` over AES-256. Claimed: a fresh stream
/// that has encrypted nothing, so nothing has come out.
#[verifier::external_body]
fn new_encryptor(key: &[u8; 32], iv: &[u8; 16]) -> (s: EncryptStream)
    ensures
        s.key@ == key@,
        s.iv@ == iv@,
        s.fed@ == Seq::<u8>::empty(),
        cfb8_encrypted(s.key@, s.iv@, s.fed@) == Seq::<u8>::empty(),
{
    EncryptStream {
        core: EncryptCore { inner: cfb8::Encryptor::new(&(*key).into(), &(*iv).into()) },
        key: Ghost(key@),
        iv: Ghost(iv@),
        fed: Ghost(Seq::empty()),
    }
}

/// A CFB8 decryptor from `cfb8::Decryptor::new` over AES-256. Claimed: a fresh stream
/// that has decrypted nothing.
#[verifier::external_body]
fn new_decryptor(key: &[u8; 32], iv: &[u8; 16]) -> (s: DecryptStream)
    ensures
        s.key@ == key@,
        s.iv@ == iv@,
        s.fed@ == Seq::<u8>::empty(),
        cfb8_decrypted(s.key@, s.iv@, s.fed@) == Seq::<u8>::empty(),
{
    DecryptStream {
        core: DecryptCore { inner: cfb8::Decryptor::new(&(*key).into(), &(*iv).into()) },
        key: Ghost(key@),
        iv: Ghost(iv@),
        fed: Ghost(Seq::empty()),
    }
}

/// One byte through `encrypt_block_mut` (CFB8's block is one byte), which does not
/// panic on a one-byte block. Claimed, as CFB8 is a stream mode: the byte that comes out extends the encryption of everything fed
/// so far by one, and decrypting that encryption from a fresh stream gives back what
/// was fed.
#[verifier::external_body]
fn encrypt_byte(stream: &mut EncryptStream, byte: u8) -> (out: u8)
    ensures
        final(stream).key == old(stream).key,
        final(stream).iv == old(stream).iv,
        final(stream).fed@ == old(stream).fed@.push(byte),
        cfb8_encrypted(final(stream).key@, final(stream).iv@, final(stream).fed@) == cfb8_encrypted(
            old(stream).key@,
            old(stream).iv@,
            old(stream).fed@,
        ).push(out),
        cfb8_decrypted(
            final(stream).key@,
            final(stream).iv@,
            cfb8_encrypted(final(stream).key@, final(stream).iv@, final(stream).fed@),
        ) == final(stream).fed@,
    no_unwind
{
    let mut block = aes::cipher::Block::<cfb8::Encryptor<aes::Aes256>>::from([byte]);
    stream.core.inner.encrypt_block_mut(&mut block);
    stream.fed = Ghost(stream.fed@.push(byte));
    block[0]
}

/// One byte through `decrypt_block_mut`, which does not panic on a one-byte block.
/// Claimed: the byte that comes out extends the
/// decryption of everything fed so far by one.
#[verifier::external_body]
fn decrypt_byte(stream: &mut DecryptStream, byte: u8) -> (out: u8)
    ensures
        final(stream).key == old(stream).key,
        final(stream).iv == old(stream).iv,
        final(stream).fed@ == old(stream).fed@.push(byte),
        cfb8_decrypted(final(stream).key@, final(stream).iv@, final(stream).fed@) == cfb8_decrypted(
            old(stream).key@,
            old(stream).iv@,
            old(stream).fed@,
        ).push(out),
    no_unwind
{
    let mut block = aes::cipher::Block::<cfb8::Decryptor<aes::Aes256>>::from([byte]);
    stream.core.inner.decrypt_block_mut(&mut block);
    stream.fed = Ghost(stream.fed@.push(byte));
    block[0]
}

/// The checksum a packet carries: the first eight bytes of
/// `SHA-256(counter_le || plaintext || key)`.
pub open spec fn checksum_of(counter: u64, plaintext: Seq<u8>, key: Seq<u8>) -> Seq<u8> {
    sha256_of(le64(counter) + plaintext + key).take(8)
}

/// A packet ready for encryption: the plaintext and its checksum.
pub open spec fn sealed(counter: u64, plaintext: Seq<u8>, key: Seq<u8>) -> Seq<u8> {
    plaintext + checksum_of(counter, plaintext, key)
}

/// What a decrypted packet yields: its plaintext when the last eight bytes are the
/// checksum the counter and key call for.
pub open spec fn opened(decrypted: Seq<u8>, counter: u64, key: Seq<u8>) -> Result<
    Seq<u8>,
    CipherError,
> {
    if decrypted.len() < 8 {
        Err(CipherError::TooShort)
    } else {
        let split = decrypted.len() - 8;
        let plaintext = decrypted.take(split);
        if decrypted.skip(split) == checksum_of(counter, plaintext, key) {
            Ok(plaintext)
        } else {
            Err(CipherError::BadChecksum)
        }
    }
}

/// A sealed packet opens to its plaintext under the counter and key it was sealed with:
/// the receiver's check accepts exactly what the sender appended. (Every digest
/// [`sha256`] returns is 32 bytes, so the checksum always has its eight.)
pub proof fn lemma_seal_then_open(counter: u64, plaintext: Seq<u8>, key: Seq<u8>)
    ensures
        sha256_of(le64(counter) + plaintext + key).len() >= 8 ==> opened(
            sealed(counter, plaintext, key),
            counter,
            key,
        ) == Ok::<Seq<u8>, CipherError>(plaintext) && sealed(counter, plaintext, key).len()
            == plaintext.len() + CHECKSUM_LEN,
{
    let s = sealed(counter, plaintext, key);
    let c = checksum_of(counter, plaintext, key);
    if sha256_of(le64(counter) + plaintext + key).len() >= 8 {
        assert(s.take(plaintext.len() as int) =~= plaintext);
        assert(s.skip(plaintext.len() as int) =~= c);
    }
}

/// One more, wrapping.
pub open spec fn next_count(n: u64) -> u64 {
    if n == u64::MAX {
        0
    } else {
        (n + 1) as u64
    }
}

/// The checksum for one packet.
pub fn checksum(counter: u64, plaintext: &[u8], key: &[u8; 32]) -> (c: [u8; CHECKSUM_LEN])
    ensures
        c@ == checksum_of(counter, plaintext@, key@),
        sha256_of(le64(counter) + plaintext@ + key@).len() == 32,
{
    let mut w = Writer::new();
    w.u64(counter);
    w.bytes(plaintext);
    w.bytes(key.as_slice());
    let input = w.finish();
    let digest = sha256(input.as_slice());
    let mut out = [0u8; CHECKSUM_LEN];
    let mut j: usize = 0;
    while j < CHECKSUM_LEN
        invariant
            j <= 8,
            digest@ == sha256_of(le64(counter) + plaintext@ + key@),
            forall|k: int| 0 <= k < j ==> out@[k] == digest@[k],
        decreases 8 - j,
    {
        out[j] = digest[j];
        j = j + 1;
    }
    assert(out@ =~= digest@.take(8));
    out
}

/// Appends every byte of `more`.
fn append(buf: &mut Vec<u8>, more: &[u8])
    ensures
        final(buf)@ == old(buf)@ + more@,
{
    let mut i: usize = 0;
    while i < more.len()
        invariant
            i <= more@.len(),
            buf@ == old(buf)@ + more@.take(i as int),
        decreases more@.len() - i,
    {
        buf.push(more[i]);
        proof {
            assert(more@.take(i + 1) =~= more@.take(i as int).push(more@[i as int]));
        }
        i = i + 1;
    }
    assert(more@.take(more@.len() as int) =~= more@);
}

/// Checks a decrypted packet against the checksum the counter and key call for, and
/// strips it.
///
/// The comparison is constant-time: one that stops at the first wrong byte tells an
/// attacker how much of a forgery was right.
pub fn open(decrypted: &[u8], counter: u64, key: &[u8; 32]) -> (res: Result<Vec<u8>, CipherError>)
    ensures
        match opened(decrypted@, counter, key@) {
            Ok(p) => res matches Ok(v) && v@ == p,
            Err(e) => res == Err::<Vec<u8>, CipherError>(e),
        },
{
    if decrypted.len() < CHECKSUM_LEN {
        return Err(CipherError::TooShort);
    }
    let split = decrypted.len() - CHECKSUM_LEN;
    let plaintext = vstd::slice::slice_subrange(decrypted, 0, split);
    let carried = vstd::slice::slice_subrange(decrypted, split, decrypted.len());
    let expected = checksum(counter, plaintext, key);
    if !constant_time_eq(carried, expected.as_slice()) {
        return Err(CipherError::BadChecksum);
    }
    let mut out: Vec<u8> = Vec::new();
    append(&mut out, plaintext);
    proof {
        assert(plaintext@ =~= decrypted@.take(split as int));
        assert(carried@ =~= decrypted@.skip(split as int));
    }
    Ok(out)
}

/// One session's encrypted stream, both directions.
pub struct Cipher {
    encryptor: EncryptStream,
    decryptor: DecryptStream,
    key: [u8; 32],
    sent: u64,
    received: u64,
}

/// What decrypting `ciphertext` next gives a cipher in state `c`: the packet is fed to
/// the receiving stream behind everything before it, and what comes out for it opens
/// under the received counter.
pub open spec fn decryption(c: Cipher, ciphertext: Seq<u8>) -> Result<Seq<u8>, CipherError> {
    if ciphertext.len() < CHECKSUM_LEN {
        Err(CipherError::TooShort)
    } else {
        opened(
            cfb8_decrypted(c.key(), c.iv(), c.received_stream() + ciphertext).skip(
                c.received_stream().len() as int,
            ),
            c.received_count(),
            c.key(),
        )
    }
}

/// Whether `after` and `out` are what encrypting `plaintext` makes of `before`: the
/// sealed packet is fed to the sending stream and what comes out for it is `out`.
/// Decrypting the whole sending stream from a fresh start gives back what was fed,
/// before and after.
pub open spec fn encrypt_step(before: Cipher, after: Cipher, plaintext: Seq<u8>, out: Seq<u8>) -> bool {
    let (k, iv) = (before.key(), before.iv());
    &&& after.key() == k
    &&& after.iv() == iv
    &&& after.sent_count() == next_count(before.sent_count())
    &&& after.received_count() == before.received_count()
    &&& after.received_stream() == before.received_stream()
    &&& after.sent_stream() == before.sent_stream() + sealed(before.sent_count(), plaintext, k)
    &&& out.len() == plaintext.len() + CHECKSUM_LEN
    &&& cfb8_encrypted(k, iv, after.sent_stream()) == cfb8_encrypted(k, iv, before.sent_stream()) + out
    &&& cfb8_decrypted(k, iv, cfb8_encrypted(k, iv, before.sent_stream())) == before.sent_stream()
    &&& cfb8_decrypted(k, iv, cfb8_encrypted(k, iv, after.sent_stream())) == after.sent_stream()
    &&& sha256_of(le64(before.sent_count()) + plaintext + k).len() == 32
}

/// Whether `after` and `res` are what decrypting `ciphertext` makes of `before`: a
/// packet too short for a checksum is refused unread; any other is fed to the receiving
/// stream, and the counter moves only when what came out opens.
pub open spec fn decrypt_step(
    before: Cipher,
    after: Cipher,
    ciphertext: Seq<u8>,
    res: Result<Vec<u8>, CipherError>,
) -> bool {
    &&& after.key() == before.key()
    &&& after.iv() == before.iv()
    &&& after.sent_count() == before.sent_count()
    &&& after.sent_stream() == before.sent_stream()
    &&& after.received_stream() == if ciphertext.len() < CHECKSUM_LEN {
        before.received_stream()
    } else {
        before.received_stream() + ciphertext
    }
    &&& match decryption(before, ciphertext) {
        Ok(p) => res matches Ok(v) && v@ == p && after.received_count() == next_count(
            before.received_count(),
        ),
        Err(e) => res == Err::<Vec<u8>, CipherError>(e) && after.received_count() == before.received_count(),
    }
    &&& cfb8_decrypted(before.key(), before.iv(), before.received_stream()).len()
        == before.received_stream().len()
}

/// Whether a receiver `b` is in step with a sender `a`: the same key, the counter the
/// sender will use next, and every byte the sender produced received in order.
pub open spec fn in_step(a: Cipher, b: Cipher) -> bool {
    &&& a.key() == b.key()
    &&& b.received_count() == a.sent_count()
    &&& b.received_stream() == cfb8_encrypted(a.key(), a.iv(), a.sent_stream())
}

/// A packet encrypted by a sender decrypts to its plaintext at a receiver in step with
/// it, and leaves the two in step: over a whole session, the packets come out as they
/// went in.
pub proof fn lemma_encrypt_then_decrypt(
    a0: Cipher,
    a1: Cipher,
    plaintext: Seq<u8>,
    out: Seq<u8>,
    b0: Cipher,
    b1: Cipher,
    res: Result<Vec<u8>, CipherError>,
)
    requires
        in_step(a0, b0),
        encrypt_step(a0, a1, plaintext, out),
        decrypt_step(b0, b1, out, res),
    ensures
        res matches Ok(v) && v@ == plaintext,
        in_step(a1, b1),
{
    let (k, iv) = (a0.key(), a0.iv());
    assert(b0.iv() == iv) by {
        assert(b0.key() == k);
    }
    let sealed_packet = sealed(a0.sent_count(), plaintext, k);
    lemma_seal_then_open(a0.sent_count(), plaintext, k);
    assert(b0.received_stream() + out == cfb8_encrypted(k, iv, a1.sent_stream()));
    assert(b0.received_stream().len() == a0.sent_stream().len());
    assert((a0.sent_stream() + sealed_packet).skip(a0.sent_stream().len() as int) =~= sealed_packet);
}

impl Cipher {
    #[verifier::type_invariant]
    spec fn streams_agree(&self) -> bool {
        let (k, iv) = (self.key@, self.key@.take(16));
        &&& self.encryptor.key@ == k
        &&& self.encryptor.iv@ == iv
        &&& self.decryptor.key@ == k
        &&& self.decryptor.iv@ == iv
        &&& cfb8_decrypted(k, iv, cfb8_encrypted(k, iv, self.encryptor.fed@)) == self.encryptor.fed@
        &&& cfb8_decrypted(k, iv, self.decryptor.fed@).len() == self.decryptor.fed@.len()
    }

    /// The session key both directions run on.
    pub closed spec fn key(&self) -> Seq<u8> {
        self.key@
    }

    /// The IV both directions start from: the key's first sixteen bytes.
    pub closed spec fn iv(&self) -> Seq<u8> {
        self.key@.take(16)
    }

    /// Every byte fed to the sending stream: each packet encrypted, sealed.
    pub closed spec fn sent_stream(&self) -> Seq<u8> {
        self.encryptor.fed@
    }

    /// Every byte fed to the receiving stream: each packet decrypted, as it came.
    pub closed spec fn received_stream(&self) -> Seq<u8> {
        self.decryptor.fed@
    }

    /// Packets encrypted so far, as the counter the next one is checksummed with.
    pub closed spec fn sent_count(&self) -> u64 {
        self.sent
    }

    /// Packets decrypted so far, as the counter the next one must carry.
    pub closed spec fn received_count(&self) -> u64 {
        self.received
    }

    /// Starts a stream from an agreed session key.
    ///
    /// The IV is the key's first sixteen bytes: there is no separate IV on the wire,
    /// and both sides have to arrive at the same one from the same material.
    pub fn new(key: &SessionKey) -> (c: Self)
        ensures
            c.key() == key@,
            c.sent_count() == 0,
            c.received_count() == 0,
            c.sent_stream() == Seq::<u8>::empty(),
            c.received_stream() == Seq::<u8>::empty(),
            cfb8_encrypted(c.key(), c.iv(), c.sent_stream()) == Seq::<u8>::empty(),
    {
        let key = *key.as_bytes();
        let mut iv = [0u8; 16];
        let mut i: usize = 0;
        while i < 16
            invariant
                i <= 16,
                forall|m: int| 0 <= m < i ==> iv@[m] == key@[m],
            decreases 16 - i,
        {
            iv[i] = key[i];
            i = i + 1;
        }
        assert(iv@ =~= key@.take(16));
        let encryptor = new_encryptor(&key, &iv);
        let decryptor = new_decryptor(&key, &iv);
        Cipher { encryptor, decryptor, key, sent: 0, received: 0 }
    }

    /// Encrypts one packet, appending its checksum.
    ///
    /// CFB8 walks the buffer a byte at a time while keeping the shift register across
    /// packets, which is what makes it one stream and not many.
    pub fn encrypt(&mut self, plaintext: &[u8]) -> (out: Vec<u8>)
        requires
            plaintext@.len() + CHECKSUM_LEN <= usize::MAX,
        ensures
            out@.len() == plaintext@.len() + CHECKSUM_LEN,
            final(self).key() == old(self).key(),
            final(self).sent_count() == next_count(old(self).sent_count()),
            final(self).received_count() == old(self).received_count(),
            encrypt_step(*old(self), *final(self), plaintext@, out@),
    {
        proof {
            use_type_invariant(&*self);
        }
        let sum = checksum(self.sent, plaintext, &self.key);
        let ghost k = self.key@;
        let ghost iv = self.key@.take(16);
        let ghost fed0 = self.encryptor.fed@;
        self.sent = self.sent.wrapping_add(1);

        let mut buf: Vec<u8> = Vec::new();
        append(&mut buf, plaintext);
        append(&mut buf, sum.as_slice());
        let mut out: Vec<u8> = Vec::new();
        let mut i: usize = 0;
        while i < buf.len()
            invariant
                i <= buf@.len(),
                out@.len() == i,
                buf@ == plaintext@ + checksum_of(old(self).sent, plaintext@, k),
                buf@.len() == plaintext@.len() + CHECKSUM_LEN,
                self.key == old(self).key,
                k == self.key@,
                iv == self.key@.take(16),
                self.sent == next_count(old(self).sent),
                self.received == old(self).received,
                self.decryptor == old(self).decryptor,
                self.decryptor.key@ == k,
                self.decryptor.iv@ == iv,
                cfb8_decrypted(k, iv, self.decryptor.fed@).len() == self.decryptor.fed@.len(),
                self.encryptor.key@ == k,
                self.encryptor.iv@ == iv,
                self.encryptor.fed@ == fed0 + buf@.take(i as int),
                cfb8_encrypted(k, iv, self.encryptor.fed@) == cfb8_encrypted(k, iv, fed0) + out@,
                cfb8_decrypted(k, iv, cfb8_encrypted(k, iv, fed0)) == fed0,
                cfb8_decrypted(k, iv, cfb8_encrypted(k, iv, self.encryptor.fed@)) == self.encryptor.fed@,
            decreases buf@.len() - i,
        {
            let ghost o = out@;
            let byte = encrypt_byte(&mut self.encryptor, buf[i]);
            out.push(byte);
            proof {
                assert(buf@.take(i + 1) =~= buf@.take(i as int).push(buf@[i as int]));
                assert(out@ =~= o.push(byte));
            }
            i = i + 1;
        }
        proof {
            assert(buf@.take(i as int) =~= buf@);
        }
        out
    }

    /// Decrypts one packet and checks its checksum.
    ///
    /// The received counter moves only when the checksum holds, so a replayed or
    /// forged packet never advances it.
    pub fn decrypt(&mut self, ciphertext: &[u8]) -> (res: Result<Vec<u8>, CipherError>)
        ensures
            final(self).key() == old(self).key(),
            final(self).sent_count() == old(self).sent_count(),
            match decryption(*old(self), ciphertext@) {
                Ok(p) => res matches Ok(v) && v@ == p && final(self).received_count() == next_count(
                    old(self).received_count(),
                ),
                Err(e) => res == Err::<Vec<u8>, CipherError>(e) && final(self).received_count() == old(
                    self,
                ).received_count(),
            },
            decrypt_step(*old(self), *final(self), ciphertext@, res),
    {
        proof {
            use_type_invariant(&*self);
        }
        if ciphertext.len() < CHECKSUM_LEN {
            return Err(CipherError::TooShort);
        }
        let ghost k = self.key@;
        let ghost iv = self.key@.take(16);
        let ghost fed0 = self.decryptor.fed@;
        let mut buf: Vec<u8> = Vec::new();
        let mut i: usize = 0;
        while i < ciphertext.len()
            invariant
                i <= ciphertext@.len(),
                buf@.len() == i,
                self.key == old(self).key,
                k == self.key@,
                iv == self.key@.take(16),
                self.sent == old(self).sent,
                self.received == old(self).received,
                self.encryptor == old(self).encryptor,
                self.encryptor.key@ == k,
                self.encryptor.iv@ == iv,
                cfb8_decrypted(k, iv, cfb8_encrypted(k, iv, self.encryptor.fed@)) == self.encryptor.fed@,
                cfb8_decrypted(k, iv, self.decryptor.fed@).len() == self.decryptor.fed@.len(),
                self.decryptor.key@ == k,
                self.decryptor.iv@ == iv,
                self.decryptor.fed@ == fed0 + ciphertext@.take(i as int),
                cfb8_decrypted(k, iv, self.decryptor.fed@) == cfb8_decrypted(k, iv, fed0) + buf@,
                cfb8_decrypted(k, iv, fed0).len() == fed0.len(),
            decreases ciphertext@.len() - i,
        {
            let ghost b = buf@;
            let byte = decrypt_byte(&mut self.decryptor, ciphertext[i]);
            buf.push(byte);
            proof {
                assert(ciphertext@.take(i + 1) =~= ciphertext@.take(i as int).push(ciphertext@[i as int]));
                assert(buf@ =~= b.push(byte));
            }
            i = i + 1;
        }
        proof {
            assert(ciphertext@.take(i as int) =~= ciphertext@);
            assert((cfb8_decrypted(k, iv, fed0) + buf@).skip(fed0.len() as int) =~= buf@);
        }
        let res = open(buf.as_slice(), self.received, &self.key);
        if res.is_ok() {
            self.received = self.received.wrapping_add(1);
        }
        res
    }

    /// Packets encrypted so far.
    pub fn sent(&self) -> (n: u64)
        ensures
            n == self.sent_count(),
    {
        self.sent
    }

    /// Packets decrypted so far.
    pub fn received(&self) -> (n: u64)
        ensures
            n == self.received_count(),
    {
        self.received
    }
}

} // verus!
