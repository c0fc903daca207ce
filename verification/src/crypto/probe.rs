//! The space of key-schedule variants a captured packet is checked against.
//!
//! Three things are guessed at once: how the session key is derived, where the IV
//! comes from, and how the checksum is built. The space is small enough to search on a
//! live connection.
use crate::crypto::cipher::{cfb8_decrypted, sha256, sha256_of};
use crate::num::le64;
use crate::protocol::bytes::Writer;
use aes::cipher::{AsyncStreamCipher, KeyIvInit};
use vstd::prelude::*;

verus! {

/// How the session key is built from the salt and the shared secret.
#[derive(Debug, Clone, Copy, PartialEq, Eq, Structural)]
pub enum Derivation {
    /// `SHA-256(salt || secret)`.
    SaltFirst,
    /// `SHA-256(secret || salt)`.
    SecretFirst,
}

/// Where the cipher's initial vector comes from.
#[derive(Debug, Clone, Copy, PartialEq, Eq, Structural)]
pub enum Iv {
    /// The first sixteen bytes of the session key.
    KeyPrefix,
    /// The salt itself, which is also sixteen bytes.
    Salt,
}

/// The order the checksum's input is assembled in.
#[derive(Debug, Clone, Copy, PartialEq, Eq, Structural)]
pub enum Checksum {
    /// `SHA-256(counter || plaintext || key)`.
    CounterPlaintextKey,
    /// `SHA-256(counter || key || plaintext)`.
    CounterKeyPlaintext,
    /// `SHA-256(key || counter || plaintext)`.
    KeyCounterPlaintext,
    /// `SHA-256(plaintext || key)`, with no counter at all.
    PlaintextKey,
}

/// One combination of the three.
#[derive(Debug, Clone, Copy, PartialEq, Eq, Structural)]
pub struct Variant {
    /// How the key is derived.
    pub derivation: Derivation,
    /// Where the IV comes from.
    pub iv: Iv,
    /// How the checksum is built.
    pub checksum: Checksum,
    /// What the counter starts at.
    pub counter_start: u64,
}

/// What a matching variant produced, so the caller can sanity-check it.
#[derive(Debug, Clone, PartialEq, Eq)]
pub struct Found {
    /// The combination that verified.
    pub variant: Variant,
    /// The plaintext it produced, checksum stripped.
    pub plaintext: Vec<u8>,
}

/// Derivations tried.
pub const DERIVATIONS: usize = 2;

/// IV sources tried.
pub const IVS: usize = 2;

/// Checksum layouts tried.
pub const CHECKSUMS: usize = 4;

/// Counter starts tried.
pub const COUNTER_STARTS: usize = 2;

/// How many combinations the search covers: every derivation, IV source, checksum
/// layout and counter start.
pub fn space() -> (n: usize)
    ensures
        n == DERIVATIONS * IVS * CHECKSUMS * COUNTER_STARTS,
        n == 32,
{
    DERIVATIONS * IVS * CHECKSUMS * COUNTER_STARTS
}

/// A fresh `cfb8::Decryptor` over AES-256, run over the whole buffer in place with
/// `AsyncStreamCipher::decrypt`. Claimed: the result depends on the key, IV and data
/// alone, and, being decrypted in place, has the data's length.
#[verifier::external_body]
fn cfb8_decrypt(key: &[u8; 32], iv: &[u8; 16], data: &[u8]) -> (out: Vec<u8>)
    ensures
        out@ == cfb8_decrypted(key@, iv@, data@),
        out@.len() == data@.len(),
{
    let mut buf = data.to_vec();
    cfb8::Decryptor::<aes::Aes256>::new(&(*key).into(), &(*iv).into()).decrypt(&mut buf);
    buf
}

/// The derivation the `i`-th combination uses: both IVs, checksums and counters under
/// the first, then under the second.
pub open spec fn derivation_at(i: int) -> Derivation {
    if i / 16 == 0 {
        Derivation::SaltFirst
    } else {
        Derivation::SecretFirst
    }
}

/// The IV source of the `i`-th combination.
pub open spec fn iv_at(i: int) -> Iv {
    if (i / 8) % 2 == 0 {
        Iv::KeyPrefix
    } else {
        Iv::Salt
    }
}

/// The checksum layout of the `i`-th combination.
pub open spec fn checksum_at(i: int) -> Checksum {
    if (i / 2) % 4 == 0 {
        Checksum::CounterPlaintextKey
    } else if (i / 2) % 4 == 1 {
        Checksum::CounterKeyPlaintext
    } else if (i / 2) % 4 == 2 {
        Checksum::KeyCounterPlaintext
    } else {
        Checksum::PlaintextKey
    }
}

/// The `i`-th combination the search tries, in the order it tries them.
pub open spec fn variant_at(i: int) -> Variant {
    Variant {
        derivation: derivation_at(i),
        iv: iv_at(i),
        checksum: checksum_at(i),
        counter_start: (i % 2) as u64,
    }
}

/// The session key a derivation makes of the salt and the shared secret.
pub open spec fn derived(kind: Derivation, salt: Seq<u8>, secret: Seq<u8>) -> Seq<u8> {
    match kind {
        Derivation::SaltFirst => sha256_of(salt + secret),
        Derivation::SecretFirst => sha256_of(secret + salt),
    }
}

/// The IV a source gives, if the salt is long enough to give one.
pub open spec fn iv_from(kind: Iv, session: Seq<u8>, salt: Seq<u8>) -> Option<Seq<u8>> {
    match kind {
        Iv::KeyPrefix => Some(session.take(16)),
        Iv::Salt => if salt.len() >= 16 {
            Some(salt.take(16))
        } else {
            None
        },
    }
}

/// What a checksum layout hashes.
pub open spec fn checksum_input(
    kind: Checksum,
    counter: u64,
    plaintext: Seq<u8>,
    key: Seq<u8>,
) -> Seq<u8> {
    match kind {
        Checksum::CounterPlaintextKey => le64(counter) + plaintext + key,
        Checksum::CounterKeyPlaintext => le64(counter) + key + plaintext,
        Checksum::KeyCounterPlaintext => key + le64(counter) + plaintext,
        Checksum::PlaintextKey => plaintext + key,
    }
}

/// The plaintext a combination recovers from `ciphertext`, if its checksum holds.
pub open spec fn recovered(v: Variant, secret: Seq<u8>, salt: Seq<u8>, ciphertext: Seq<u8>) -> Option<
    Seq<u8>,
> {
    let session = derived(v.derivation, salt, secret);
    match iv_from(v.iv, session, salt) {
        None => None,
        Some(iv) => {
            let buf = cfb8_decrypted(session, iv, ciphertext);
            let split = ciphertext.len() - 8;
            let plaintext = buf.take(split);
            if buf.skip(split) == sha256_of(
                checksum_input(v.checksum, v.counter_start, plaintext, session),
            ).take(8) {
                Some(plaintext)
            } else {
                None
            }
        },
    }
}

/// The first combination from `i` up to `end` that recovers a plaintext.
pub open spec fn first_from(
    secret: Seq<u8>,
    salt: Seq<u8>,
    ciphertext: Seq<u8>,
    i: nat,
    end: nat,
) -> Option<(Variant, Seq<u8>)>
    decreases end - i,
{
    if i >= end {
        None
    } else {
        match recovered(variant_at(i as int), secret, salt, ciphertext) {
            Some(p) => Some((variant_at(i as int), p)),
            None => first_from(secret, salt, ciphertext, i + 1, end),
        }
    }
}

/// Searching a range is searching its front, then, if that found nothing, its back.
proof fn lemma_first_from_split(
    secret: Seq<u8>,
    salt: Seq<u8>,
    ciphertext: Seq<u8>,
    a: nat,
    b: nat,
    c: nat,
)
    requires
        a <= b <= c,
        first_from(secret, salt, ciphertext, a, b) is None,
    ensures
        first_from(secret, salt, ciphertext, a, c) == first_from(secret, salt, ciphertext, b, c),
    decreases b - a,
{
    if a < b {
        lemma_first_from_split(secret, salt, ciphertext, a + 1, b, c);
    }
}

/// What a range finds, a longer range from the same start finds too.
proof fn lemma_first_from_found(
    secret: Seq<u8>,
    salt: Seq<u8>,
    ciphertext: Seq<u8>,
    a: nat,
    b: nat,
    c: nat,
)
    requires
        a <= b <= c,
        first_from(secret, salt, ciphertext, a, b) is Some,
    ensures
        first_from(secret, salt, ciphertext, a, c) == first_from(secret, salt, ciphertext, a, b),
    decreases b - a,
{
    if a < b && recovered(variant_at(a as int), secret, salt, ciphertext) is None {
        lemma_first_from_found(secret, salt, ciphertext, a + 1, b, c);
    }
}

/// A range none of whose combinations can form an IV finds nothing.
proof fn lemma_no_iv_finds_nothing(
    secret: Seq<u8>,
    salt: Seq<u8>,
    ciphertext: Seq<u8>,
    a: nat,
    b: nat,
)
    requires
        a <= b,
        salt.len() < 16,
        forall|j: int| a <= j < b ==> #[trigger] iv_at(j) == Iv::Salt,
    ensures
        first_from(secret, salt, ciphertext, a, b) is None,
    decreases b - a,
{
    if a < b {
        assert(iv_at(a as int) == Iv::Salt);
        lemma_no_iv_finds_nothing(secret, salt, ciphertext, a + 1, b);
    }
}

fn derive(kind: Derivation, salt: &[u8], secret: &[u8]) -> (key: [u8; 32])
    ensures
        key@ == derived(kind, salt@, secret@),
{
    let mut w = Writer::new();
    match kind {
        Derivation::SaltFirst => {
            w.bytes(salt);
            w.bytes(secret);
        },
        Derivation::SecretFirst => {
            w.bytes(secret);
            w.bytes(salt);
        },
    }
    let input = w.finish();
    sha256(input.as_slice())
}

fn checksum(kind: Checksum, counter: u64, plaintext: &[u8], key: &[u8; 32]) -> (c: Vec<u8>)
    ensures
        c@ == sha256_of(checksum_input(kind, counter, plaintext@, key@)).take(8),
{
    let mut w = Writer::new();
    match kind {
        Checksum::CounterPlaintextKey => {
            w.u64(counter);
            w.bytes(plaintext);
            w.bytes(key.as_slice());
        },
        Checksum::CounterKeyPlaintext => {
            w.u64(counter);
            w.bytes(key.as_slice());
            w.bytes(plaintext);
        },
        Checksum::KeyCounterPlaintext => {
            w.bytes(key.as_slice());
            w.u64(counter);
            w.bytes(plaintext);
        },
        Checksum::PlaintextKey => {
            w.bytes(plaintext);
            w.bytes(key.as_slice());
        },
    }
    let input = w.finish();
    let digest = sha256(input.as_slice());
    let mut out: Vec<u8> = Vec::new();
    let mut i: usize = 0;
    while i < 8
        invariant
            i <= 8,
            digest@ == sha256_of(checksum_input(kind, counter, plaintext@, key@)),
            out@ == digest@.take(i as int),
        decreases 8 - i,
    {
        out.push(digest[i]);
        proof {
            assert(digest@.take(i + 1) =~= digest@.take(i as int).push(digest@[i as int]));
        }
        i = i + 1;
    }
    out
}

/// Whether two byte strings are the same.
fn same_bytes(a: &[u8], b: &[u8]) -> (same: bool)
    ensures
        same == (a@ == b@),
{
    if a.len() != b.len() {
        return false;
    }
    let mut i: usize = 0;
    while i < a.len()
        invariant
            a@.len() == b@.len(),
            i <= a@.len(),
            forall|k: int| 0 <= k < i ==> a@[k] == b@[k],
        decreases a@.len() - i,
    {
        if a[i] != b[i] {
            return false;
        }
        i = i + 1;
    }
    assert(a@ =~= b@);
    true
}

/// The bytes of a slice, owned.
fn owned(s: &[u8]) -> (v: Vec<u8>)
    ensures
        v@ == s@,
{
    let mut w = Writer::new();
    w.bytes(s);
    w.finish()
}

/// Tries every combination against one captured packet, given the secret key agreement
/// produced, and reports the first whose checksum verifies.
///
/// `ciphertext` is the payload with the batch marker already stripped. A packet shorter
/// than a checksum holds nothing to check, and finds nothing.
pub fn search(secret: &[u8], salt: &[u8], ciphertext: &[u8]) -> (found: Option<Found>)
    ensures
        ciphertext@.len() < 8 ==> found is None,
        ciphertext@.len() >= 8 ==> match first_from(secret@, salt@, ciphertext@, 0, 32) {
            Some((v, p)) => found matches Some(f) && f.variant == v && f.plaintext@ == p,
            None => found is None,
        },
        found matches Some(f) ==> f.plaintext@.len() == ciphertext@.len() - 8,
{
    if ciphertext.len() < 8 {
        return None;
    }
    let ghost (s, t, c) = (secret@, salt@, ciphertext@);
    let mut d: usize = 0;
    while d < 2
        invariant
            d <= 2,
            c.len() >= 8,
            s == secret@,
            t == salt@,
            c == ciphertext@,
            first_from(s, t, c, 0, 32) == first_from(s, t, c, (16 * d) as nat, 32),
        decreases 2 - d,
    {
        let derivation = if d == 0 {
            Derivation::SaltFirst
        } else {
            Derivation::SecretFirst
        };
        let session = derive(derivation, salt, secret);
        let mut v: usize = 0;
        while v < 2
            invariant
                d < 2,
                v <= 2,
                c.len() >= 8,
                s == secret@,
                t == salt@,
                c == ciphertext@,
                derivation == derivation_at(16 * d),
                session@ == derived(derivation, t, s),
                first_from(s, t, c, 0, 32) == first_from(s, t, c, (16 * d + 8 * v) as nat, 32),
            decreases 2 - v,
        {
            let base: usize = 16 * d + 8 * v;
            let iv_kind = if v == 0 {
                Iv::KeyPrefix
            } else {
                Iv::Salt
            };
            proof {
                assert forall|j: int| base <= j < base + 8 implies derivation_at(j) == derivation
                    && #[trigger] iv_at(j) == iv_kind by {
                    assert(j / 16 == d as int);
                    assert((j / 8) % 2 == v as int);
                }
            }
            let mut iv = [0u8; 16];
            if v == 0 {
                let mut k: usize = 0;
                while k < 16
                    invariant
                        k <= 16,
                        session@.len() == 32,
                        forall|m: int| 0 <= m < k ==> iv@[m] == session@[m],
                    decreases 16 - k,
                {
                    iv[k] = session[k];
                    k = k + 1;
                }
                assert(iv@ =~= session@.take(16));
            } else if salt.len() >= 16 {
                let mut k: usize = 0;
                while k < 16
                    invariant
                        k <= 16,
                        salt@.len() >= 16,
                        forall|m: int| 0 <= m < k ==> iv@[m] == salt@[m],
                    decreases 16 - k,
                {
                    iv[k] = salt[k];
                    k = k + 1;
                }
                assert(iv@ =~= salt@.take(16));
            } else {
                proof {
                    lemma_no_iv_finds_nothing(s, t, c, base as nat, (base + 8) as nat);
                    lemma_first_from_split(s, t, c, base as nat, (base + 8) as nat, 32);
                }
                v = v + 1;
                continue;
            }
            let buf = cfb8_decrypt(&session, &iv, ciphertext);
            let split = buf.len() - 8;
            let plaintext = vstd::slice::slice_subrange(buf.as_slice(), 0, split);
            let carried = vstd::slice::slice_subrange(buf.as_slice(), split, buf.len());
            proof {
                assert(plaintext@ =~= buf@.take(split as int));
                assert(carried@ =~= buf@.skip(split as int));
                assert(plaintext@.len() == c.len() - 8);
            }
            let mut j: usize = base;
            while j < base + 8
                invariant
                    base == 16 * d + 8 * v,
                    d < 2,
                    v < 2,
                    base <= j <= base + 8,
                    c.len() >= 8,
                    plaintext@.len() == c.len() - 8,
                    s == secret@,
                    t == salt@,
                    c == ciphertext@,
                    session@ == derived(derivation_at(base as int), t, s),
                    forall|m: int| base <= m < base + 8 ==> derivation_at(m) == derivation_at(
                        base as int,
                    ) && #[trigger] iv_at(m) == iv_at(base as int),
                    iv_from(iv_at(base as int), session@, t) == Some(iv@),
                    buf@ == cfb8_decrypted(session@, iv@, c),
                    split == c.len() - 8,
                    plaintext@ == buf@.take(split as int),
                    carried@ == buf@.skip(split as int),
                    first_from(s, t, c, base as nat, (base + 8) as nat) == first_from(
                        s,
                        t,
                        c,
                        j as nat,
                        (base + 8) as nat,
                    ),
                    first_from(s, t, c, 0, 32) == first_from(s, t, c, base as nat, 32),
                    iv_kind == iv_at(base as int),
                    derivation_at(base as int) == (if d == 0 {
                        Derivation::SaltFirst
                    } else {
                        Derivation::SecretFirst
                    }),
                decreases base + 8 - j,
            {
                let layout = if (j / 2) % 4 == 0 {
                    Checksum::CounterPlaintextKey
                } else if (j / 2) % 4 == 1 {
                    Checksum::CounterKeyPlaintext
                } else if (j / 2) % 4 == 2 {
                    Checksum::KeyCounterPlaintext
                } else {
                    Checksum::PlaintextKey
                };
                let counter_start = (j % 2) as u64;
                let expected = checksum(layout, counter_start, plaintext, &session);
                proof {
                    assert(iv_at(j as int) == iv_at(base as int));
                    assert(variant_at(j as int) == Variant {
                        derivation: derivation_at(base as int),
                        iv: iv_at(base as int),
                        checksum: layout,
                        counter_start,
                    });
                }
                if same_bytes(carried, expected.as_slice()) {
                    let variant = Variant {
                        derivation: if d == 0 {
                            Derivation::SaltFirst
                        } else {
                            Derivation::SecretFirst
                        },
                        iv: iv_kind,
                        checksum: layout,
                        counter_start,
                    };
                    proof {
                        assert(recovered(variant_at(j as int), s, t, c) == Some(plaintext@));
                        assert(first_from(s, t, c, j as nat, (base + 8) as nat) == Some(
                            (variant_at(j as int), plaintext@),
                        ));
                        lemma_first_from_found(s, t, c, base as nat, (base + 8) as nat, 32);
                    }
                    return Some(Found { variant, plaintext: owned(plaintext) });
                }
                j = j + 1;
            }
            proof {
                lemma_first_from_split(s, t, c, base as nat, (base + 8) as nat, 32);
            }
            v = v + 1;
        }
        d = d + 1;
    }
    None
}

} // verus!
