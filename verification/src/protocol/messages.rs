//! How the codec's errors read to an operator.
use crate::protocol::bytes::{DecodeError, MAX_VARINT_BYTES};
use crate::protocol::login::LoginError;
use crate::text::{decimal, push_decimal, push_str, string_from};
use vstd::prelude::*;

verus! {

/// How a decode error reads.
pub open spec fn decode_error_text(e: DecodeError) -> Seq<char> {
    match e {
        DecodeError::UnexpectedEnd { needed, available } => "needed "@ + decimal(needed as nat)
            + " byte(s), "@ + decimal(available as nat) + " available"@,
        DecodeError::VarintTooLong => "varint longer than "@ + decimal(MAX_VARINT_BYTES as nat)
            + " bytes"@,
    }
}

/// How a login error reads.
pub open spec fn login_error_text(e: LoginError) -> Seq<char> {
    match e {
        LoginError::Malformed(d) => decode_error_text(d),
        LoginError::TooLarge { section, declared, limit } => section@ + " declared "@ + decimal(
            declared as nat,
        ) + " bytes, limit is "@ + decimal(limit as nat),
        LoginError::NotUtf8(section) => section@ + " is not valid UTF-8"@,
    }
}

impl DecodeError {
    /// Appends how this error reads.
    pub fn push_text(&self, out: &mut Vec<char>)
        ensures
            final(out)@ == old(out)@ + decode_error_text(*self),
    {
        match self {
            DecodeError::UnexpectedEnd { needed, available } => {
                push_str(out, "needed ");
                push_decimal(out, *needed as u64);
                push_str(out, " byte(s), ");
                push_decimal(out, *available as u64);
                push_str(out, " available");
            },
            DecodeError::VarintTooLong => {
                push_str(out, "varint longer than ");
                push_decimal(out, MAX_VARINT_BYTES as u64);
                push_str(out, " bytes");
            },
        }
        assert(out@ =~= old(out)@ + decode_error_text(*self));
    }

    /// How this error reads.
    pub fn to_text(&self) -> (t: String)
        ensures
            t@ == decode_error_text(*self),
    {
        let mut out: Vec<char> = Vec::new();
        self.push_text(&mut out);
        assert(out@ =~= decode_error_text(*self));
        string_from(out.as_slice())
    }
}

impl LoginError {
    /// How this error reads.
    pub fn to_text(&self) -> (t: String)
        ensures
            t@ == login_error_text(*self),
    {
        let mut out: Vec<char> = Vec::new();
        match self {
            LoginError::Malformed(d) => d.push_text(&mut out),
            LoginError::TooLarge { section, declared, limit } => {
                push_str(&mut out, section);
                push_str(&mut out, " declared ");
                push_decimal(&mut out, *declared as u64);
                push_str(&mut out, " bytes, limit is ");
                push_decimal(&mut out, *limit as u64);
            },
            LoginError::NotUtf8(section) => {
                push_str(&mut out, section);
                push_str(&mut out, " is not valid UTF-8");
            },
        }
        assert(out@ =~= login_error_text(*self));
        string_from(out.as_slice())
    }
}

} // verus!
