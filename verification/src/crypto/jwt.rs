//! Verifying the identity token a client presents at login.
//!
//! The token is an RS256 JWT issued by Minecraft's own authorization service, whose
//! signing keys are published as a JWKS. Verification here is pure: keys and the
//! current time come in as arguments.
//!
//! Two things are deliberately not taken from the token: the algorithm and the key.
//! Reading `alg` from a token is the classic JWT forgery, so the algorithm is fixed
//! and the `kid` only selects among keys we already trust. Claims are read only once
//! the signature holds.
use crate::text::{push_signed_decimal, push_str, signed_decimal, string_from, text_eq};
use base64::Engine;
use vstd::prelude::*;
use vstd::string::StringSliceAdditionalSpecFns;
use vstd::utf8::encode_utf8;

verus! {

/// A public key from the issuer's JWKS.
#[derive(Debug, Clone)]
pub struct Jwk {
    /// Which key this is, matched against the token header.
    pub kid: String,
    /// Key type. Only `RSA` is accepted.
    pub kty: String,
    /// Modulus, base64url.
    pub n: String,
    /// Exponent, base64url.
    pub e: String,
}

/// A key as the contracts see it: id, type, modulus, exponent.
pub type JwkView = (Seq<char>, Seq<char>, Seq<char>, Seq<char>);

impl View for Jwk {
    type V = JwkView;

    open spec fn view(&self) -> JwkView {
        (self.kid@, self.kty@, self.n@, self.e@)
    }
}

/// The issuer's published keys.
#[derive(Debug, Clone)]
pub struct Jwks {
    /// The keys themselves.
    pub keys: Vec<Jwk>,
}

impl View for Jwks {
    type V = Seq<JwkView>;

    open spec fn view(&self) -> Seq<JwkView> {
        self.keys@.map_values(|k: Jwk| k@)
    }
}

/// What the token must say about itself before its claims are believed.
#[derive(Debug, Clone)]
pub struct Expected {
    /// Required `iss`.
    pub issuer: String,
    /// Required `aud`.
    pub audience: String,
    /// Slack for clock skew between us and the issuer, in seconds.
    pub leeway: i64,
}

/// Why a token was not accepted.
#[derive(Debug, Clone, PartialEq, Eq)]
pub enum JwtError {
    /// Not three dot-separated segments.
    Malformed,
    /// A segment was not valid base64url, or its JSON did not parse.
    MalformedSegment(&'static str),
    /// The JWKS document did not parse.
    MalformedKeys,
    /// The header named an algorithm we do not accept.
    UnexpectedAlgorithm(String),
    /// The header named a key we do not have.
    UnknownKey(String),
    /// The key is not RSA.
    UnsupportedKeyType(String),
    /// The signature did not verify.
    BadSignature,
    /// `iss` was not what we require.
    WrongIssuer(String),
    /// `aud` was not what we require.
    WrongAudience(String),
    /// The token has expired.
    Expired {
        /// When it expired.
        expiry: i64,
        /// What we think the time is.
        now: i64,
    },
    /// The token is not valid yet.
    NotYetValid {
        /// When it becomes valid.
        issued: i64,
        /// What we think the time is.
        now: i64,
    },
}

/// A refusal as the contracts see it: [`JwtError`] with its text as characters.
pub enum Refusal {
    Malformed,
    MalformedSegment(Seq<char>),
    MalformedKeys,
    UnexpectedAlgorithm(Seq<char>),
    UnknownKey(Seq<char>),
    UnsupportedKeyType(Seq<char>),
    BadSignature,
    WrongIssuer(Seq<char>),
    WrongAudience(Seq<char>),
    Expired { expiry: i64, now: i64 },
    NotYetValid { issued: i64, now: i64 },
}

impl View for JwtError {
    type V = Refusal;

    open spec fn view(&self) -> Refusal {
        match self {
            JwtError::Malformed => Refusal::Malformed,
            JwtError::MalformedSegment(which) => Refusal::MalformedSegment(which@),
            JwtError::MalformedKeys => Refusal::MalformedKeys,
            JwtError::UnexpectedAlgorithm(alg) => Refusal::UnexpectedAlgorithm(alg@),
            JwtError::UnknownKey(kid) => Refusal::UnknownKey(kid@),
            JwtError::UnsupportedKeyType(kty) => Refusal::UnsupportedKeyType(kty@),
            JwtError::BadSignature => Refusal::BadSignature,
            JwtError::WrongIssuer(iss) => Refusal::WrongIssuer(iss@),
            JwtError::WrongAudience(aud) => Refusal::WrongAudience(aud@),
            JwtError::Expired { expiry, now } => Refusal::Expired { expiry: *expiry, now: *now },
            JwtError::NotYetValid { issued, now } => Refusal::NotYetValid {
                issued: *issued,
                now: *now,
            },
        }
    }
}

/// How a refusal reads to an operator.
pub open spec fn refusal_text(r: Refusal) -> Seq<char> {
    match r {
        Refusal::Malformed => "token is not three segments"@,
        Refusal::MalformedSegment(which) => which + " segment did not decode"@,
        Refusal::MalformedKeys => "key set did not parse"@,
        Refusal::UnexpectedAlgorithm(alg) => "algorithm "@ + alg + " is not accepted"@,
        Refusal::UnknownKey(kid) => "no published key with id "@ + kid,
        Refusal::UnsupportedKeyType(kty) => "key type "@ + kty + " is not supported"@,
        Refusal::BadSignature => "signature did not verify"@,
        Refusal::WrongIssuer(iss) => "issued by "@ + iss,
        Refusal::WrongAudience(aud) => "audience is "@ + aud,
        Refusal::Expired { expiry, now } => "expired at "@ + signed_decimal(expiry as int)
            + ", now "@ + signed_decimal(now as int),
        Refusal::NotYetValid { issued, now } => "issued at "@ + signed_decimal(issued as int)
            + ", now "@ + signed_decimal(now as int),
    }
}

impl JwtError {
    /// How this refusal reads to an operator.
    pub fn to_text(&self) -> (text: String)
        ensures
            text@ == refusal_text(self@),
    {
        let mut out: Vec<char> = Vec::new();
        match self {
            JwtError::Malformed => push_str(&mut out, "token is not three segments"),
            JwtError::MalformedSegment(which) => {
                push_str(&mut out, which);
                push_str(&mut out, " segment did not decode");
            },
            JwtError::MalformedKeys => push_str(&mut out, "key set did not parse"),
            JwtError::UnexpectedAlgorithm(alg) => {
                push_str(&mut out, "algorithm ");
                push_str(&mut out, alg.as_str());
                push_str(&mut out, " is not accepted");
            },
            JwtError::UnknownKey(kid) => {
                push_str(&mut out, "no published key with id ");
                push_str(&mut out, kid.as_str());
            },
            JwtError::UnsupportedKeyType(kty) => {
                push_str(&mut out, "key type ");
                push_str(&mut out, kty.as_str());
                push_str(&mut out, " is not supported");
            },
            JwtError::BadSignature => push_str(&mut out, "signature did not verify"),
            JwtError::WrongIssuer(iss) => {
                push_str(&mut out, "issued by ");
                push_str(&mut out, iss.as_str());
            },
            JwtError::WrongAudience(aud) => {
                push_str(&mut out, "audience is ");
                push_str(&mut out, aud.as_str());
            },
            JwtError::Expired { expiry, now } => {
                push_str(&mut out, "expired at ");
                push_signed_decimal(&mut out, *expiry);
                push_str(&mut out, ", now ");
                push_signed_decimal(&mut out, *now);
            },
            JwtError::NotYetValid { issued, now } => {
                push_str(&mut out, "issued at ");
                push_signed_decimal(&mut out, *issued);
                push_str(&mut out, ", now ");
                push_signed_decimal(&mut out, *now);
            },
        }
        proof {
            assert(out@ =~= refusal_text(self@));
        }
        string_from(out.as_slice())
    }
}

/// The claims we act on. Everything else in the token is ignored on purpose.
#[derive(Debug, Clone)]
pub struct Claims {
    /// Issuer.
    pub iss: String,
    /// Audience.
    pub aud: String,
    /// Expiry, seconds since the epoch.
    pub exp: i64,
    /// Issued at, seconds since the epoch.
    pub iat: i64,
    /// The player's Xbox user id.
    pub xid: Option<String>,
    /// The player's gamertag.
    pub xname: Option<String>,
    /// The client's public key, base64 DER. This is what key agreement uses, and the
    /// only reason verifying the token matters for encryption: it binds the key to an
    /// identity the issuer vouched for.
    pub cpk: Option<String>,
}

/// Claims as the contracts see them: issuer, audience, expiry, issued-at, Xbox user
/// id, gamertag, client key.
pub type ClaimsView = (
    Seq<char>,
    Seq<char>,
    i64,
    i64,
    Option<Seq<char>>,
    Option<Seq<char>>,
    Option<Seq<char>>,
);

/// The characters of an optional string.
pub open spec fn optional_view(s: Option<String>) -> Option<Seq<char>> {
    match s {
        Some(s) => Some(s@),
        None => None,
    }
}

impl View for Claims {
    type V = ClaimsView;

    open spec fn view(&self) -> ClaimsView {
        (
            self.iss@,
            self.aud@,
            self.exp,
            self.iat,
            optional_view(self.xid),
            optional_view(self.xname),
            optional_view(self.cpk),
        )
    }
}

/// What `URL_SAFE_NO_PAD` base64 decoding makes of `text`, if it is valid.
pub uninterp spec fn base64url_decoded(text: Seq<u8>) -> Option<Seq<u8>>;

/// The string member `name` of the JSON object `doc`, if `doc` parses as one and the
/// member is a string.
pub uninterp spec fn json_string_member_of(doc: Seq<u8>, name: Seq<char>) -> Option<Seq<char>>;

/// The integer member `name` of the JSON object `doc`, if it fits an `i64`.
pub uninterp spec fn json_i64_member_of(doc: Seq<u8>, name: Seq<char>) -> Option<i64>;

/// The optional string member `name` of the JSON object `doc`: `Some(None)` when it is
/// absent or null, `None` when `doc` does not parse or the member is something else.
pub uninterp spec fn json_optional_string_member_of(doc: Seq<u8>, name: Seq<char>) -> Option<
    Option<Seq<char>>,
>;

/// The keys a JWKS document lists, if it parses as an object whose `keys` array holds
/// objects with string `kid`, `kty`, `n` and `e`.
pub uninterp spec fn jwks_entries_of(json: Seq<char>) -> Option<Seq<JwkView>>;

/// Whether `signature` is a valid RSASSA-PKCS1-v1_5 SHA-256 signature of `message`
/// under the key with modulus `n` and exponent `e` (2048 to 8192 bits).
pub uninterp spec fn rsa_sha256_signature_holds(
    n: Seq<u8>,
    e: Seq<u8>,
    message: Seq<u8>,
    signature: Seq<u8>,
) -> bool;

/// `base64::engine::general_purpose::URL_SAFE_NO_PAD.decode`. Claimed: the decoded
/// bytes when the input is valid, nothing otherwise, the same for the same input.
#[verifier::external_body]
fn base64url_decode(text: &[u8]) -> (r: Option<Vec<u8>>)
    ensures
        match r {
            Some(v) => base64url_decoded(text@) == Some(v@),
            None => base64url_decoded(text@) is None,
        },
{
    base64::engine::general_purpose::URL_SAFE_NO_PAD.decode(text).ok()
}

/// `serde_json::from_slice` into a `Value`, then `get(name)` and `as_str`. Claimed: the
/// member's text, the same for the same document and name.
#[verifier::external_body]
fn json_string_member(doc: &[u8], name: &str) -> (r: Option<String>)
    ensures
        match r {
            Some(s) => json_string_member_of(doc@, name@) == Some(s@),
            None => json_string_member_of(doc@, name@) is None,
        },
{
    let value: serde_json::Value = serde_json::from_slice(doc).ok()?;
    value.get(name)?.as_str().map(str::to_owned)
}

/// `serde_json::from_slice` into a `Value`, then `get(name)` and `as_i64`. Claimed: the
/// member's value, the same for the same document and name.
#[verifier::external_body]
fn json_i64_member(doc: &[u8], name: &str) -> (r: Option<i64>)
    ensures
        r == json_i64_member_of(doc@, name@),
{
    let value: serde_json::Value = serde_json::from_slice(doc).ok()?;
    value.get(name)?.as_i64()
}

/// `serde_json::from_slice` into a `Value`, then `get(name)`, telling a missing or null
/// member from a string one. Claimed: the member's text, the same for the same document
/// and name.
#[verifier::external_body]
fn json_optional_string_member(doc: &[u8], name: &str) -> (r: Option<Option<String>>)
    ensures
        match r {
            Some(Some(s)) => json_optional_string_member_of(doc@, name@) == Some(Some(s@)),
            Some(None) => json_optional_string_member_of(doc@, name@) == Some(
                None::<Seq<char>>,
            ),
            None => json_optional_string_member_of(doc@, name@) is None,
        },
{
    let value: serde_json::Value = serde_json::from_slice(doc).ok()?;
    match value.get(name) {
        None | Some(serde_json::Value::Null) => Some(None),
        Some(serde_json::Value::String(s)) => Some(Some(s.clone())),
        Some(_) => None,
    }
}

/// `serde_json::from_str` into a `Value`, then each entry of its `keys` array read as
/// four string members. Claimed: the entries in document order, the same for the same
/// document.
#[verifier::external_body]
fn jwks_entries(json: &str) -> (r: Option<Vec<(String, String, String, String)>>)
    ensures
        match r {
            Some(v) => jwks_entries_of(json@) == Some(
                v@.map_values(|k: (String, String, String, String)| (k.0@, k.1@, k.2@, k.3@)),
            ),
            None => jwks_entries_of(json@) is None,
        },
{
    let doc: serde_json::Value = serde_json::from_str(json).ok()?;
    let field = |key: &serde_json::Value, name: &str| key.get(name)?.as_str().map(str::to_owned);
    doc.get("keys")?.as_array()?.iter().map(|key| {
        Some((field(key, "kid")?, field(key, "kty")?, field(key, "n")?, field(key, "e")?))
    }).collect()
}

/// `RsaPublicKeyComponents::verify` with `RSA_PKCS1_2048_8192_SHA256`, from ring.
/// Claimed: whether the signature holds, the same for the same key, message and
/// signature.
#[verifier::external_body]
fn rsa_sha256_verify(n: &[u8], e: &[u8], message: &[u8], signature: &[u8]) -> (ok: bool)
    ensures
        ok == rsa_sha256_signature_holds(n@, e@, message@, signature@),
{
    ring::signature::RsaPublicKeyComponents { n, e }.verify(
        &ring::signature::RSA_PKCS1_2048_8192_SHA256,
        message,
        signature,
    ).is_ok()
}

/// Where the dots of `t` are, in order.
pub open spec fn dot_positions(t: Seq<u8>) -> Seq<int>
    decreases t.len(),
{
    if t.len() == 0 {
        Seq::<int>::empty()
    } else {
        let rest = dot_positions(t.drop_last());
        if t.last() == 0x2eu8 {
            rest.push(t.len() - 1)
        } else {
            rest
        }
    }
}

/// A header's algorithm and key id, when its segment decodes.
pub open spec fn header_of(segment: Seq<u8>) -> Option<(Seq<char>, Seq<char>)> {
    match base64url_decoded(segment) {
        None => None,
        Some(doc) => match (json_string_member_of(doc, "alg"@), json_string_member_of(doc, "kid"@)) {
            (Some(alg), Some(kid)) => Some((alg, kid)),
            _ => None,
        },
    }
}

/// The claims a segment carries, when it decodes and every claim has its type.
pub open spec fn claims_of(segment: Seq<u8>) -> Option<ClaimsView> {
    match base64url_decoded(segment) {
        None => None,
        Some(doc) => match (
            json_string_member_of(doc, "iss"@),
            json_string_member_of(doc, "aud"@),
            json_i64_member_of(doc, "exp"@),
            json_i64_member_of(doc, "iat"@),
            json_optional_string_member_of(doc, "xid"@),
            json_optional_string_member_of(doc, "xname"@),
            json_optional_string_member_of(doc, "cpk"@),
        ) {
            (Some(iss), Some(aud), Some(exp), Some(iat), Some(xid), Some(xname), Some(cpk)) => Some(
                (iss, aud, exp, iat, xid, xname, cpk),
            ),
            _ => None,
        },
    }
}

/// The first published key with id `kid`.
pub open spec fn find_key(keys: Seq<JwkView>, kid: Seq<char>) -> Option<JwkView>
    decreases keys.len(),
{
    if keys.len() == 0 {
        None
    } else if keys[0].0 == kid {
        Some(keys[0])
    } else {
        find_key(keys.drop_first(), kid)
    }
}

/// Why verified claims are still refused, if they are: the issuer, the audience, then
/// expiry and issue time, each judged with the leeway and no more.
pub open spec fn claims_refusal(
    c: ClaimsView,
    issuer: Seq<char>,
    audience: Seq<char>,
    leeway: i64,
    now: i64,
) -> Option<Refusal> {
    if c.0 != issuer {
        Some(Refusal::WrongIssuer(c.0))
    } else if c.1 != audience {
        Some(Refusal::WrongAudience(c.1))
    } else if now > c.2 + leeway {
        Some(Refusal::Expired { expiry: c.2, now })
    } else if now + leeway < c.3 {
        Some(Refusal::NotYetValid { issued: c.3, now })
    } else {
        None
    }
}

/// What verifying token bytes `t` against `keys` yields, step by step: three segments,
/// a header naming RS256 and a published RSA key, a signature over the first two
/// segments that holds, and only then claims that decode and pass [`claims_refusal`].
pub open spec fn verification(
    t: Seq<u8>,
    keys: Seq<JwkView>,
    issuer: Seq<char>,
    audience: Seq<char>,
    leeway: i64,
    now: i64,
) -> Result<ClaimsView, Refusal> {
    let d = dot_positions(t);
    if d.len() != 2 {
        Err(Refusal::Malformed)
    } else {
        match header_of(t.take(d[0])) {
            None => Err(Refusal::MalformedSegment("header"@)),
            Some((alg, kid)) => if alg != "RS256"@ {
                Err(Refusal::UnexpectedAlgorithm(alg))
            } else {
                match find_key(keys, kid) {
                    None => Err(Refusal::UnknownKey(kid)),
                    Some(key) => if key.1 != "RSA"@ {
                        Err(Refusal::UnsupportedKeyType(key.1))
                    } else {
                        match (
                            base64url_decoded(encode_utf8(key.2)),
                            base64url_decoded(encode_utf8(key.3)),
                        ) {
                            (Some(n), Some(e)) => match base64url_decoded(t.skip(d[1] + 1)) {
                                None => Err(Refusal::MalformedSegment("signature"@)),
                                Some(sig) => if !rsa_sha256_signature_holds(
                                    n,
                                    e,
                                    t.take(d[1]),
                                    sig,
                                ) {
                                    Err(Refusal::BadSignature)
                                } else {
                                    match claims_of(t.subrange(d[0] + 1, d[1])) {
                                        None => Err(Refusal::MalformedSegment("claims"@)),
                                        Some(c) => match claims_refusal(
                                            c,
                                            issuer,
                                            audience,
                                            leeway,
                                            now,
                                        ) {
                                            Some(r) => Err(r),
                                            None => Ok(c),
                                        },
                                    }
                                },
                            },
                            _ => Err(Refusal::MalformedKeys),
                        }
                    },
                }
            },
        }
    }
}

impl Jwks {
    /// Parses a JWKS document.
    pub fn parse(json: &str) -> (res: Result<Self, JwtError>)
        ensures
            match jwks_entries_of(json@) {
                Some(keys) => res matches Ok(k) && k@ == keys,
                None => res matches Err(e) && e@ == Refusal::MalformedKeys,
            },
    {
        let entries = match jwks_entries(json) {
            Some(entries) => entries,
            None => return Err(JwtError::MalformedKeys),
        };
        let ghost want = entries@.map_values(
            |k: (String, String, String, String)| (k.0@, k.1@, k.2@, k.3@),
        );
        let mut keys: Vec<Jwk> = Vec::new();
        let mut i: usize = 0;
        while i < entries.len()
            invariant
                i <= entries@.len(),
                want == entries@.map_values(
                    |k: (String, String, String, String)| (k.0@, k.1@, k.2@, k.3@),
                ),
                keys@.map_values(|k: Jwk| k@) == want.take(i as int),
            decreases entries@.len() - i,
        {
            let key = Jwk {
                kid: entries[i].0.clone(),
                kty: entries[i].1.clone(),
                n: entries[i].2.clone(),
                e: entries[i].3.clone(),
            };
            let ghost before = keys@.map_values(|k: Jwk| k@);
            keys.push(key);
            proof {
                assert(keys@.map_values(|k: Jwk| k@) =~= before.push(key@));
                assert(want.take(i + 1) =~= want.take(i as int).push(want[i as int]));
            }
            i = i + 1;
        }
        proof {
            assert(want.take(i as int) =~= want);
        }
        Ok(Jwks { keys })
    }

    /// The first published key with id `kid`.
    pub fn find(&self, kid: &str) -> (r: Option<&Jwk>)
        ensures
            match find_key(self@, kid@) {
                Some(k) => r matches Some(j) && j@ == k,
                None => r is None,
            },
    {
        let mut i: usize = 0;
        assert(self@.skip(0) =~= self@);
        while i < self.keys.len()
            invariant
                i <= self@.len(),
                self@.len() == self.keys@.len(),
                find_key(self@, kid@) == find_key(self@.skip(i as int), kid@),
            decreases self@.len() - i,
        {
            proof {
                assert(self@.skip(i as int)[0] == self.keys@[i as int]@);
                assert(self@.skip(i as int).drop_first() =~= self@.skip(i + 1));
            }
            if text_eq(self.keys[i].kid.as_str(), kid) {
                return Some(&self.keys[i]);
            }
            i = i + 1;
        }
        None
    }
}

/// Checks verified claims against what we require of them. The leeway widens both
/// ends of the validity window by exactly its value.
pub fn check_claims(claims: &Claims, expected: &Expected, now: i64) -> (res: Result<(), JwtError>)
    ensures
        match claims_refusal(
            claims@,
            expected.issuer@,
            expected.audience@,
            expected.leeway,
            now,
        ) {
            Some(r) => res matches Err(e) && e@ == r,
            None => res is Ok,
        },
{
    if !text_eq(claims.iss.as_str(), expected.issuer.as_str()) {
        return Err(JwtError::WrongIssuer(claims.iss.clone()));
    }
    if !text_eq(claims.aud.as_str(), expected.audience.as_str()) {
        return Err(JwtError::WrongAudience(claims.aud.clone()));
    }
    if (now as i128) > (claims.exp as i128) + (expected.leeway as i128) {
        return Err(JwtError::Expired { expiry: claims.exp, now });
    }
    if (now as i128) + (expected.leeway as i128) < (claims.iat as i128) {
        return Err(JwtError::NotYetValid { issued: claims.iat, now });
    }
    Ok(())
}

/// The optional string a member decoded to.
fn optional_member(doc: &[u8], name: &str) -> (r: Option<Option<String>>)
    ensures
        match json_optional_string_member_of(doc@, name@) {
            Some(v) => r matches Some(o) && optional_view(o) == v,
            None => r is None,
        },
{
    json_optional_string_member(doc, name)
}

/// Decodes the claims segment.
fn read_claims(segment: &[u8]) -> (r: Option<Claims>)
    ensures
        match claims_of(segment@) {
            Some(c) => r matches Some(x) && x@ == c,
            None => r is None,
        },
{
    let doc = base64url_decode(segment)?;
    let d = doc.as_slice();
    let iss = json_string_member(d, "iss");
    let aud = json_string_member(d, "aud");
    let exp = json_i64_member(d, "exp");
    let iat = json_i64_member(d, "iat");
    let xid = optional_member(d, "xid");
    let xname = optional_member(d, "xname");
    let cpk = optional_member(d, "cpk");
    match (iss, aud, exp, iat, xid, xname, cpk) {
        (Some(iss), Some(aud), Some(exp), Some(iat), Some(xid), Some(xname), Some(cpk)) => Some(
            Claims { iss, aud, exp, iat, xid, xname, cpk },
        ),
        _ => None,
    }
}

/// Verifies a token and returns its claims.
///
/// `now` is seconds since the epoch, passed in rather than read so this stays pure.
pub fn verify(token: &str, keys: &Jwks, expected: &Expected, now: i64) -> (res: Result<
    Claims,
    JwtError,
>)
    ensures
        match verification(
            token.spec_bytes(),
            keys@,
            expected.issuer@,
            expected.audience@,
            expected.leeway,
            now,
        ) {
            Ok(c) => res matches Ok(x) && x@ == c,
            Err(r) => res matches Err(e) && e@ == r,
        },
{
    let t = token.as_bytes();
    let mut dots: Vec<usize> = Vec::new();
    let mut i: usize = 0;
    while i < t.len()
        invariant
            i <= t@.len(),
            dots@.map_values(|d: usize| d as int) == dot_positions(t@.take(i as int)),
            forall|k: int| 0 <= k < dots@.len() ==> dots@[k] < i,
            forall|a: int, b: int| 0 <= a < b < dots@.len() ==> dots@[a] < dots@[b],
        decreases t@.len() - i,
    {
        proof {
            assert(t@.take(i + 1).drop_last() =~= t@.take(i as int));
        }
        if t[i] == 0x2e {
            let ghost before = dots@.map_values(|d: usize| d as int);
            dots.push(i);
            proof {
                assert(dots@.map_values(|d: usize| d as int) =~= before.push(i as int));
            }
        }
        i = i + 1;
    }
    proof {
        assert(t@.take(i as int) =~= t@);
    }
    if dots.len() != 2 {
        return Err(JwtError::Malformed);
    }
    let first = dots[0];
    let second = dots[1];
    proof {
        assert(dot_positions(t@)[0] == first);
        assert(dot_positions(t@)[1] == second);
    }
    let header_segment = vstd::slice::slice_subrange(t, 0, first);
    let claims_segment = vstd::slice::slice_subrange(t, first + 1, second);
    let signature_segment = vstd::slice::slice_subrange(t, second + 1, t.len());
    let signed = vstd::slice::slice_subrange(t, 0, second);
    proof {
        assert(header_segment@ =~= t@.take(first as int));
        assert(claims_segment@ =~= t@.subrange(first + 1, second as int));
        assert(signature_segment@ =~= t@.skip(second + 1));
        assert(signed@ =~= t@.take(second as int));
    }

    let header_doc = match base64url_decode(header_segment) {
        Some(doc) => doc,
        None => return Err(JwtError::MalformedSegment("header")),
    };
    let alg = json_string_member(header_doc.as_slice(), "alg");
    let kid = json_string_member(header_doc.as_slice(), "kid");
    let (alg, kid) = match (alg, kid) {
        (Some(alg), Some(kid)) => (alg, kid),
        _ => return Err(JwtError::MalformedSegment("header")),
    };
    if !text_eq(alg.as_str(), "RS256") {
        return Err(JwtError::UnexpectedAlgorithm(alg));
    }

    let key = match keys.find(kid.as_str()) {
        Some(key) => key,
        None => return Err(JwtError::UnknownKey(kid)),
    };
    if !text_eq(key.kty.as_str(), "RSA") {
        return Err(JwtError::UnsupportedKeyType(key.kty.clone()));
    }

    let n = base64url_decode(key.n.as_str().as_bytes());
    let e = base64url_decode(key.e.as_str().as_bytes());
    let (n, e) = match (n, e) {
        (Some(n), Some(e)) => (n, e),
        _ => return Err(JwtError::MalformedKeys),
    };
    let signature = match base64url_decode(signature_segment) {
        Some(signature) => signature,
        None => return Err(JwtError::MalformedSegment("signature")),
    };
    if !rsa_sha256_verify(n.as_slice(), e.as_slice(), signed, signature.as_slice()) {
        return Err(JwtError::BadSignature);
    }

    // Only after the signature holds are the claims worth reading.
    let claims = match read_claims(claims_segment) {
        Some(claims) => claims,
        None => return Err(JwtError::MalformedSegment("claims")),
    };
    match check_claims(&claims, expected, now) {
        Ok(()) => Ok(claims),
        Err(e) => Err(e),
    }
}

/// A token that names any algorithm but RS256 is refused for that, whatever keys are
/// published and whatever the time: the algorithm comes from us, not the token.
pub proof fn lemma_algorithm_is_ours(
    t: Seq<u8>,
    keys: Seq<JwkView>,
    issuer: Seq<char>,
    audience: Seq<char>,
    leeway: i64,
    now: i64,
)
    requires
        dot_positions(t).len() == 2,
        header_of(t.take(dot_positions(t)[0])) matches Some((alg, kid)) && alg != "RS256"@,
    ensures
        verification(t, keys, issuer, audience, leeway, now) == Err::<ClaimsView, Refusal>(
            Refusal::UnexpectedAlgorithm(header_of(t.take(dot_positions(t)[0])).unwrap().0),
        ),
{
}

/// Nothing is accepted unsigned: a token that verifies names RS256 and a published RSA
/// key, carries a signature over its first two segments that holds under that key, and
/// its claims, decoded only then, are the ones returned and pass the checks.
pub proof fn lemma_accepted_means_signed(
    t: Seq<u8>,
    keys: Seq<JwkView>,
    issuer: Seq<char>,
    audience: Seq<char>,
    leeway: i64,
    now: i64,
)
    requires
        verification(t, keys, issuer, audience, leeway, now) is Ok,
    ensures
        ({
            let d = dot_positions(t);
            let c = verification(t, keys, issuer, audience, leeway, now)->Ok_0;
            let header = header_of(t.take(d[0]));
            let key = find_key(keys, header.unwrap().1);
            let n = base64url_decoded(encode_utf8(key.unwrap().2));
            let e = base64url_decoded(encode_utf8(key.unwrap().3));
            let sig = base64url_decoded(t.skip(d[1] + 1));
            &&& d.len() == 2
            &&& header is Some
            &&& header.unwrap().0 == "RS256"@
            &&& key is Some
            &&& key.unwrap().1 == "RSA"@
            &&& n is Some && e is Some && sig is Some
            &&& rsa_sha256_signature_holds(n.unwrap(), e.unwrap(), t.take(d[1]), sig.unwrap())
            &&& claims_of(t.subrange(d[0] + 1, d[1])) == Some(c)
            &&& claims_refusal(c, issuer, audience, leeway, now) is None
        }),
{
}

/// For the right issuer and audience, claims pass exactly when `now` lies in the
/// validity window widened at both ends by the leeway, and by no more.
pub proof fn lemma_leeway_window(
    c: ClaimsView,
    issuer: Seq<char>,
    audience: Seq<char>,
    leeway: i64,
    now: i64,
)
    requires
        c.0 == issuer,
        c.1 == audience,
    ensures
        claims_refusal(c, issuer, audience, leeway, now) is None <==> c.3 - leeway <= now <= c.2
            + leeway,
{
}

} // verus!
