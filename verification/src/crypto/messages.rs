//! How the crypto errors read to an operator, and how a key-schedule variant is named.
use crate::crypto::agreement::AgreementError;
use crate::crypto::cipher::{Cipher, CipherError};
use crate::crypto::probe::{Checksum, Derivation, Iv, Variant};
use crate::text::{decimal, push_decimal, push_str, string_from};
use vstd::prelude::*;

verus! {

/// How a cipher error reads.
pub open spec fn cipher_error_text(e: CipherError) -> Seq<char> {
    match e {
        CipherError::TooShort => "packet is shorter than its checksum"@,
        CipherError::BadChecksum => "checksum did not match"@,
    }
}

/// How an agreement error reads.
pub open spec fn agreement_error_text(e: AgreementError) -> Seq<char> {
    match e {
        AgreementError::NotP384PublicKey => "not a secp384r1 public key"@,
        AgreementError::NotUncompressed => "public key point is not uncompressed"@,
        AgreementError::NoRandomness => "could not get randomness"@,
        AgreementError::BadPeerKey => "peer public key is not a valid curve point"@,
    }
}

/// A derivation's name.
pub open spec fn derivation_name(d: Derivation) -> Seq<char> {
    match d {
        Derivation::SaltFirst => "SaltFirst"@,
        Derivation::SecretFirst => "SecretFirst"@,
    }
}

/// An IV source's name.
pub open spec fn iv_name(v: Iv) -> Seq<char> {
    match v {
        Iv::KeyPrefix => "KeyPrefix"@,
        Iv::Salt => "Salt"@,
    }
}

/// A checksum layout's name.
pub open spec fn checksum_name(c: Checksum) -> Seq<char> {
    match c {
        Checksum::CounterPlaintextKey => "CounterPlaintextKey"@,
        Checksum::CounterKeyPlaintext => "CounterKeyPlaintext"@,
        Checksum::KeyCounterPlaintext => "KeyCounterPlaintext"@,
        Checksum::PlaintextKey => "PlaintextKey"@,
    }
}

/// How a variant reads: each of its four choices, named.
pub open spec fn variant_text(v: Variant) -> Seq<char> {
    "derivation="@ + derivation_name(v.derivation) + " iv="@ + iv_name(v.iv) + " checksum="@
        + checksum_name(v.checksum) + " counter_start="@ + decimal(v.counter_start as nat)
}

/// How a stream describes itself: its two counters, and never its key.
pub open spec fn cipher_text(sent: u64, received: u64) -> Seq<char> {
    "Cipher(sent: "@ + decimal(sent as nat) + ", received: "@ + decimal(received as nat) + ")"@
}

impl Cipher {
    /// How this stream describes itself: the packets counted each way, and nothing of
    /// the key.
    pub fn to_text(&self) -> (t: String)
        ensures
            t@ == cipher_text(self.sent_count(), self.received_count()),
    {
        let mut out: Vec<char> = Vec::new();
        push_str(&mut out, "Cipher(sent: ");
        push_decimal(&mut out, self.sent());
        push_str(&mut out, ", received: ");
        push_decimal(&mut out, self.received());
        push_str(&mut out, ")");
        assert(out@ =~= cipher_text(self.sent_count(), self.received_count()));
        string_from(out.as_slice())
    }
}

impl CipherError {
    /// How this error reads.
    pub fn to_text(&self) -> (t: String)
        ensures
            t@ == cipher_error_text(*self),
    {
        let mut out: Vec<char> = Vec::new();
        match self {
            CipherError::TooShort => push_str(&mut out, "packet is shorter than its checksum"),
            CipherError::BadChecksum => push_str(&mut out, "checksum did not match"),
        }
        assert(out@ =~= cipher_error_text(*self));
        string_from(out.as_slice())
    }
}

impl AgreementError {
    /// How this error reads.
    pub fn to_text(&self) -> (t: String)
        ensures
            t@ == agreement_error_text(*self),
    {
        let mut out: Vec<char> = Vec::new();
        match self {
            AgreementError::NotP384PublicKey => push_str(&mut out, "not a secp384r1 public key"),
            AgreementError::NotUncompressed => push_str(
                &mut out,
                "public key point is not uncompressed",
            ),
            AgreementError::NoRandomness => push_str(&mut out, "could not get randomness"),
            AgreementError::BadPeerKey => push_str(
                &mut out,
                "peer public key is not a valid curve point",
            ),
        }
        assert(out@ =~= agreement_error_text(*self));
        string_from(out.as_slice())
    }
}

impl Variant {
    /// How this variant reads.
    pub fn to_text(&self) -> (t: String)
        ensures
            t@ == variant_text(*self),
    {
        let mut out: Vec<char> = Vec::new();
        push_str(&mut out, "derivation=");
        match self.derivation {
            Derivation::SaltFirst => push_str(&mut out, "SaltFirst"),
            Derivation::SecretFirst => push_str(&mut out, "SecretFirst"),
        }
        push_str(&mut out, " iv=");
        match self.iv {
            Iv::KeyPrefix => push_str(&mut out, "KeyPrefix"),
            Iv::Salt => push_str(&mut out, "Salt"),
        }
        push_str(&mut out, " checksum=");
        match self.checksum {
            Checksum::CounterPlaintextKey => push_str(&mut out, "CounterPlaintextKey"),
            Checksum::CounterKeyPlaintext => push_str(&mut out, "CounterKeyPlaintext"),
            Checksum::KeyCounterPlaintext => push_str(&mut out, "KeyCounterPlaintext"),
            Checksum::PlaintextKey => push_str(&mut out, "PlaintextKey"),
        }
        push_str(&mut out, " counter_start=");
        push_decimal(&mut out, self.counter_start);
        assert(out@ =~= variant_text(*self));
        string_from(out.as_slice())
    }
}

} // verus!
