//! The `Login` packet: who the client claims to be.
//!
//! ```text
//! int32 BE   client protocol version
//! varint     length of everything below
//!   int32 LE length + JSON  {"AuthenticationType":0,"Token":"<RS256 JWT>"}
//!   int32 LE length + JWT   ES384, public key in its x5u header
//! ```
//!
//! Nothing here is trusted: signatures are not checked at this layer and the strings
//! are a peer's claims about itself. This module turns bytes into borrowed slices and
//! stops there, refusing any section longer than [`Limits`] allows before reading it.
use crate::num::{be32_value, le32_value};
use crate::protocol::bytes::{prefixed_read, DecodeError, Reader};
use crate::text::utf8;
use vstd::prelude::*;
use vstd::string::StringSliceAdditionalSpecFns;
use vstd::utf8::valid_utf8;

verus! {

/// `Login`, client to server.
pub const ID_LOGIN: u32 = 1;

/// Who must have issued a client's identity token.
pub const TOKEN_ISSUER: &'static str = "https://authorization.franchise.minecraft-services.net/";

/// The audience that token must be for.
pub const TOKEN_AUDIENCE: &'static str = "api://auth-minecraft-services/multiplayer";

/// Where the issuer publishes its signing keys.
pub const TOKEN_KEYS_URL: &'static str =
    "https://authorization.franchise.minecraft-services.net/.well-known/keys";

/// The name the identity section goes by in errors.
pub const IDENTITY_SECTION: &'static str = "identity";

/// The name the client-data section goes by in errors.
pub const CLIENT_DATA_SECTION: &'static str = "client data";

/// What a login may cost before it is refused.
#[derive(Debug, Clone, Copy)]
pub struct Limits {
    /// Longest identity document accepted.
    pub max_identity: usize,
    /// Longest client-data token accepted. Skins dominate this.
    pub max_client_data: usize,
}

impl Default for Limits {
    /// Room for a bigger skin than observed, without room for a peer to bill us for
    /// megabytes.
    fn default() -> (l: Self)
        ensures
            l.max_identity == 64 * 1024,
            l.max_client_data == 2 * 1024 * 1024,
    {
        Limits { max_identity: 64 * 1024, max_client_data: 2 * 1024 * 1024 }
    }
}

/// Why a login did not decode.
#[derive(Debug, Clone, PartialEq, Eq)]
pub enum LoginError {
    /// The buffer ended early or a varint was malformed.
    Malformed(DecodeError),
    /// A section declared a length past what [`Limits`] allows.
    TooLarge {
        /// Which section.
        section: &'static str,
        /// What it declared.
        declared: usize,
        /// What is allowed.
        limit: usize,
    },
    /// A section was not valid UTF-8.
    NotUtf8(&'static str),
}

/// A decoded login, borrowing from the packet body.
#[derive(Debug, Clone, Copy, PartialEq, Eq)]
pub struct Login<'a> {
    /// The protocol version the client speaks.
    pub client_protocol: u32,
    /// JSON holding the authentication token. Unverified.
    pub identity: &'a str,
    /// A JWT of client data — skin, device, language. Unverified.
    pub client_data: &'a str,
}

/// What one section of the blob decodes to: its text and the bytes it took, or why not.
pub open spec fn section_spec(s: Seq<u8>, name: &'static str, limit: usize) -> Result<
    (Seq<u8>, nat),
    LoginError,
> {
    if s.len() < 4 {
        Err(LoginError::Malformed(DecodeError::UnexpectedEnd { needed: 4, available: s.len() as usize }))
    } else {
        let declared = le32_value(s) as usize;
        let rest = s.skip(4);
        if declared > limit {
            Err(LoginError::TooLarge { section: name, declared, limit })
        } else if declared > rest.len() {
            Err(
                LoginError::Malformed(
                    DecodeError::UnexpectedEnd { needed: declared, available: rest.len() as usize },
                ),
            )
        } else if !valid_utf8(rest.take(declared as int)) {
            Err(LoginError::NotUtf8(name))
        } else {
            Ok((rest.take(declared as int), (4 + declared) as nat))
        }
    }
}

/// What a login body decodes to: the protocol version and the two sections' text.
pub open spec fn login_spec(body: Seq<u8>, limits: Limits) -> Result<
    (u32, Seq<u8>, Seq<u8>),
    LoginError,
> {
    if body.len() < 4 {
        Err(LoginError::Malformed(DecodeError::UnexpectedEnd { needed: 4, available: body.len() as usize }))
    } else {
        match prefixed_read(body.skip(4)) {
            Err(e) => Err(LoginError::Malformed(e)),
            Ok((blob, _)) => match section_spec(blob, IDENTITY_SECTION, limits.max_identity) {
                Err(e) => Err(e),
                Ok((identity, n)) => match section_spec(
                    blob.skip(n as int),
                    CLIENT_DATA_SECTION,
                    limits.max_client_data,
                ) {
                    Err(e) => Err(e),
                    Ok((client_data, _)) => Ok((be32_value(body), identity, client_data)),
                },
            },
        }
    }
}

impl<'a> Login<'a> {
    /// Decodes a login body.
    ///
    /// The blob length is redundant with the section lengths inside it; reading through
    /// it rather than trusting it means a lie costs a short read.
    pub fn decode(body: &'a [u8], limits: &Limits) -> (res: Result<Self, LoginError>)
        ensures
            match login_spec(body@, *limits) {
                Ok((protocol, identity, client_data)) => res matches Ok(l) && l.client_protocol
                    == protocol && l.identity.spec_bytes() == identity
                    && l.client_data.spec_bytes() == client_data,
                Err(e) => res == Err::<Self, LoginError>(e),
            },
    {
        let mut r = Reader::new(body);
        let client_protocol = match r.u32_be() {
            Ok(v) => v,
            Err(e) => return Err(LoginError::Malformed(e)),
        };
        let blob = match r.prefixed() {
            Ok(b) => b,
            Err(e) => return Err(LoginError::Malformed(e)),
        };
        let mut r = Reader::new(blob);
        let identity = section(&mut r, IDENTITY_SECTION, limits.max_identity)?;
        let client_data = section(&mut r, CLIENT_DATA_SECTION, limits.max_client_data)?;
        Ok(Login { client_protocol, identity, client_data })
    }
}

fn section<'a>(r: &mut Reader<'a>, name: &'static str, limit: usize) -> (res: Result<
    &'a str,
    LoginError,
>)
    ensures
        match section_spec(old(r)@, name, limit) {
            Ok((text, n)) => (res matches Ok(s) && s.spec_bytes() == text) && final(r)@ == old(
                r,
            )@.skip(n as int),
            Err(e) => res == Err::<&'a str, LoginError>(e),
        },
{
    let ghost start = r@;
    let declared = match r.u32() {
        Ok(v) => v as usize,
        Err(e) => return Err(LoginError::Malformed(e)),
    };
    if declared > limit {
        return Err(LoginError::TooLarge { section: name, declared, limit });
    }
    let bytes = match r.bytes(declared) {
        Ok(b) => b,
        Err(e) => return Err(LoginError::Malformed(e)),
    };
    proof {
        assert(start.skip(4).skip(declared as int) =~= start.skip(4 + declared));
    }
    match utf8(bytes) {
        Some(s) => Ok(s),
        None => Err(LoginError::NotUtf8(name)),
    }
}

} // verus!
