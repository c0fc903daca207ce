//! Whether a login's identity holds up: the issuer's keys, the wall clock, and the
//! token inside the identity section.
//!
//! A server that cannot verify refuses. Falling back to accepting whoever asks, when a
//! key fetch fails, is worse than never having checked: it looks authenticated and is
//! not.
use crate::crypto::jwt::{
    refusal_text, verification, verify, Claims, ClaimsView, Expected, Jwks, JwtError, Refusal,
};
use crate::protocol::login::{TOKEN_AUDIENCE, TOKEN_ISSUER};
use crate::text::{push_str, string_from};
use base64::Engine;
use vstd::prelude::*;
use vstd::string::StringSliceAdditionalSpecFns;
use vstd::utf8::encode_utf8;

verus! {

/// Slack for clock skew between us and the issuer, in seconds.
pub const TOKEN_LEEWAY: i64 = 60;

/// Nanoseconds in a second.
pub const NANOS_PER_SECOND: u64 = 1_000_000_000;

/// The wall clock, as the caller last read it: seconds since the epoch, and the
/// monotonic reading (in nanoseconds) taken at the same moment.
///
/// It must be set regularly, not once: monotonic time does not count time the machine
/// spent asleep, and a clock anchored once falls behind after a suspend until valid
/// tokens read as issued in the future.
#[derive(Debug, Clone, Copy)]
pub struct Clock {
    anchor: Option<(i64, u64)>,
}

/// Seconds since the epoch at monotonic reading `now`, given the anchor: the anchor's
/// wall-clock time plus the whole seconds elapsed since it (none, if `now` is earlier).
pub open spec fn clock_reading(anchor: Option<(i64, u64)>, now: u64) -> Option<int> {
    match anchor {
        None => None,
        Some((unix, at)) => Some(
            unix + (if now >= at {
                (now - at) / (NANOS_PER_SECOND as int)
            } else {
                0
            }),
        ),
    }
}

impl Clock {
    /// The anchor, as the contracts see it.
    pub closed spec fn anchor_view(&self) -> Option<(i64, u64)> {
        self.anchor
    }

    /// A clock that has not been read yet.
    pub fn unset() -> (c: Self)
        ensures
            c.anchor_view() is None,
    {
        Clock { anchor: None }
    }

    /// Records a reading: `unix_now` seconds since the epoch at monotonic time `now`.
    /// The latest reading wins over any earlier one.
    pub fn set(&mut self, unix_now: i64, now: u64)
        ensures
            final(self).anchor_view() == Some((unix_now, now)),
    {
        self.anchor = Some((unix_now, now));
    }

    /// Whether the clock has been read.
    pub fn is_set(&self) -> (b: bool)
        ensures
            b == self.anchor_view() is Some,
    {
        self.anchor.is_some()
    }

    /// Seconds since the epoch at monotonic time `now`, when the clock has been read
    /// and the sum fits.
    pub fn unix_now(&self, now: u64) -> (t: Option<i64>)
        ensures
            match clock_reading(self.anchor_view(), now) {
                Some(v) => if i64::MIN <= v <= i64::MAX {
                    t == Some(v as i64)
                } else {
                    t is None
                },
                None => t is None,
            },
    {
        match self.anchor {
            None => None,
            Some((unix, at)) => {
                let elapsed: u64 = if now >= at {
                    (now - at) / NANOS_PER_SECOND
                } else {
                    0
                };
                let sum: i128 = unix as i128 + elapsed as i128;
                if sum > i64::MAX as i128 {
                    None
                } else {
                    Some(sum as i64)
                }
            },
        }
    }
}

/// Why a login's identity was refused.
#[derive(Debug, Clone, PartialEq, Eq)]
pub enum IdentityError {
    /// The issuer's keys were never supplied.
    NoKeys,
    /// The clock was never read.
    NoClock,
    /// The identity section is not JSON.
    NotJson,
    /// The identity section has no `Token` string.
    NoToken,
    /// The token itself was refused.
    Token(JwtError),
}

/// What the identity section's `Token` member holds: `None` when the section is not
/// JSON, `Some(None)` when it has no string `Token`.
pub uninterp spec fn identity_token_of(identity: Seq<char>) -> Option<Option<Seq<char>>>;

/// `serde_json::from_str` into a `Value`, then `get("Token")` and `as_str`. Claimed: the
/// token's text, the same for the same section.
#[verifier::external_body]
fn identity_token(identity: &str) -> (t: Option<Option<String>>)
    ensures
        match t {
            None => identity_token_of(identity@) is None,
            Some(None) => identity_token_of(identity@) == Some(None::<Seq<char>>),
            Some(Some(s)) => identity_token_of(identity@) == Some(Some(s@)),
        },
{
    let outer: serde_json::Value = serde_json::from_str(identity).ok()?;
    Some(outer.get("Token").and_then(serde_json::Value::as_str).map(str::to_owned))
}

/// A refusal of the identity, as the contracts see it.
pub enum IdentityRefusal {
    NoKeys,
    NoClock,
    NotJson,
    NoToken,
    Token(Refusal),
}

impl View for IdentityError {
    type V = IdentityRefusal;

    open spec fn view(&self) -> IdentityRefusal {
        match self {
            IdentityError::NoKeys => IdentityRefusal::NoKeys,
            IdentityError::NoClock => IdentityRefusal::NoClock,
            IdentityError::NotJson => IdentityRefusal::NotJson,
            IdentityError::NoToken => IdentityRefusal::NoToken,
            IdentityError::Token(e) => IdentityRefusal::Token(e@),
        }
    }
}

/// What checking an identity section yields: keys and a clock are both required, the
/// section must carry a `Token`, and the token must verify against the issuer and
/// audience logins are for, with [`TOKEN_LEEWAY`] of slack.
pub open spec fn identity_check(
    identity: Seq<char>,
    keys: Option<Seq<crate::crypto::jwt::JwkView>>,
    unix_now: Option<i64>,
) -> Result<ClaimsView, IdentityRefusal> {
    match keys {
        None => Err(IdentityRefusal::NoKeys),
        Some(keys) => match unix_now {
            None => Err(IdentityRefusal::NoClock),
            Some(now) => match identity_token_of(identity) {
                None => Err(IdentityRefusal::NotJson),
                Some(None) => Err(IdentityRefusal::NoToken),
                Some(Some(token)) => match verification(
                    encode_utf8(token),
                    keys,
                    TOKEN_ISSUER@,
                    TOKEN_AUDIENCE@,
                    TOKEN_LEEWAY,
                    now,
                ) {
                    Ok(c) => Ok(c),
                    Err(r) => Err(IdentityRefusal::Token(r)),
                },
            },
        },
    }
}

/// The keys as the contracts see them, when there are any.
pub open spec fn keys_view(keys: Option<&Jwks>) -> Option<Seq<crate::crypto::jwt::JwkView>> {
    match keys {
        Some(k) => Some(k@),
        None => None,
    }
}

/// Checks a login's identity section against the issuer's published keys at the time
/// the clock gives.
pub fn verify_identity(identity: &str, keys: Option<&Jwks>, unix_now: Option<i64>) -> (res: Result<
    Claims,
    IdentityError,
>)
    ensures
        match identity_check(identity@, keys_view(keys), unix_now) {
            Ok(c) => res matches Ok(x) && x@ == c,
            Err(r) => res matches Err(e) && e@ == r,
        },
{
    let keys = match keys {
        Some(keys) => keys,
        None => return Err(IdentityError::NoKeys),
    };
    let now = match unix_now {
        Some(now) => now,
        None => return Err(IdentityError::NoClock),
    };
    let token = match identity_token(identity) {
        None => return Err(IdentityError::NotJson),
        Some(None) => return Err(IdentityError::NoToken),
        Some(Some(token)) => token,
    };
    let expected = Expected {
        issuer: TOKEN_ISSUER.to_owned(),
        audience: TOKEN_AUDIENCE.to_owned(),
        leeway: TOKEN_LEEWAY,
    };
    match verify(token.as_str(), keys, &expected, now) {
        Ok(claims) => Ok(claims),
        Err(e) => Err(IdentityError::Token(e)),
    }
}

/// How an identity refusal reads to an operator.
pub open spec fn identity_refusal_text(r: IdentityRefusal) -> Seq<char> {
    match r {
        IdentityRefusal::NoKeys => "server has no issuer keys, so no login can be verified"@,
        IdentityRefusal::NoClock => "server has no wall-clock anchor"@,
        IdentityRefusal::NotJson => "identity is not JSON"@,
        IdentityRefusal::NoToken => "identity has no Token"@,
        IdentityRefusal::Token(t) => refusal_text(t),
    }
}

impl IdentityError {
    /// How this refusal reads to an operator.
    pub fn to_text(&self) -> (text: String)
        ensures
            text@ == identity_refusal_text(self@),
    {
        let mut out: Vec<char> = Vec::new();
        match self {
            IdentityError::NoKeys => push_str(
                &mut out,
                "server has no issuer keys, so no login can be verified",
            ),
            IdentityError::NoClock => push_str(&mut out, "server has no wall-clock anchor"),
            IdentityError::NotJson => push_str(&mut out, "identity is not JSON"),
            IdentityError::NoToken => push_str(&mut out, "identity has no Token"),
            IdentityError::Token(e) => return e.to_text(),
        }
        string_from(out.as_slice())
    }
}

/// What standard (padded) base64 decoding makes of `text`, if it is valid.
pub uninterp spec fn base64_decoded(text: Seq<u8>) -> Option<Seq<u8>>;

/// `base64::engine::general_purpose::STANDARD.decode`. Claimed: the decoded bytes when
/// the input is valid, nothing otherwise, the same for the same input.
#[verifier::external_body]
fn base64_decode(text: &[u8]) -> (r: Option<Vec<u8>>)
    ensures
        match r {
            Some(v) => base64_decoded(text@) == Some(v@),
            None => base64_decoded(text@) is None,
        },
{
    base64::engine::general_purpose::STANDARD.decode(text).ok()
}

/// The key to agree with: the one the issuer signed into the claims, base64-decoded,
/// and never whatever else the login happens to carry.
pub fn client_key(claims: &Claims) -> (key: Option<Vec<u8>>)
    ensures
        match claims.cpk {
            None => key is None,
            Some(cpk) => match base64_decoded(encode_utf8(cpk@)) {
                Some(k) => key matches Some(v) && v@ == k,
                None => key is None,
            },
        },
{
    match &claims.cpk {
        None => None,
        Some(cpk) => base64_decode(cpk.as_str().as_bytes()),
    }
}

/// The property a login rests on: without the issuer's keys, or without a clock, no
/// identity is accepted, whatever it says.
pub proof fn lemma_unverifiable_is_refused(
    identity: Seq<char>,
    keys: Option<Seq<crate::crypto::jwt::JwkView>>,
    unix_now: Option<i64>,
)
    requires
        keys is None || unix_now is None,
    ensures
        identity_check(identity, keys, unix_now) is Err,
{
}

} // verus!
