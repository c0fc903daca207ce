use base64::engine::general_purpose::URL_SAFE_NO_PAD;
use base64::Engine;
use bedrock::crypto::jwt::{check_claims, verify, Claims, Expected, Jwks, JwtError};

const KEYS: &str = r#"{"keys":[{"kid":"a","kty":"RSA","n":"AQAB","e":"AQAB","use":"sig"}]}"#;

fn expected() -> Expected {
    Expected {
        issuer: "https://example.test/".to_owned(),
        audience: "api://test".to_owned(),
        leeway: 60,
    }
}

fn token(header: &str, claims: &str) -> String {
    format!(
        "{}.{}.{}",
        URL_SAFE_NO_PAD.encode(header),
        URL_SAFE_NO_PAD.encode(claims),
        URL_SAFE_NO_PAD.encode(b"not-a-real-signature")
    )
}

#[test]
fn a_key_set_parses() {
    let keys = Jwks::parse(KEYS).unwrap();
    assert_eq!(keys.keys.len(), 1);
    assert!(keys.find("a").is_some());
    assert!(keys.find("missing").is_none());
}

/// The forgery this guards against: a token that names its own algorithm. Refused
/// before any key is looked up.
#[test]
fn the_algorithm_comes_from_us_not_the_token() {
    for alg in ["none", "HS256", "RS512"] {
        let token = token(&format!(r#"{{"alg":"{alg}","kid":"a"}}"#), "{}");
        assert_eq!(
            verify(&token, &Jwks::parse(KEYS).unwrap(), &expected(), 0).unwrap_err(),
            JwtError::UnexpectedAlgorithm(alg.to_owned())
        );
    }
}

#[test]
fn an_unknown_key_id_is_refused() {
    let token = token(r#"{"alg":"RS256","kid":"other"}"#, "{}");
    assert_eq!(
        verify(&token, &Jwks::parse(KEYS).unwrap(), &expected(), 0).unwrap_err(),
        JwtError::UnknownKey("other".to_owned())
    );
}

/// Claims are only read once the signature holds, so a bad signature never lets a
/// malformed claim set matter.
#[test]
fn a_bad_signature_is_refused_before_claims_are_read() {
    let token = token(r#"{"alg":"RS256","kid":"a"}"#, "this is not json");
    assert_eq!(
        verify(&token, &Jwks::parse(KEYS).unwrap(), &expected(), 0).unwrap_err(),
        JwtError::BadSignature
    );
}

#[test]
fn a_token_that_is_not_three_segments_is_refused() {
    for bad in ["", "one", "one.two", "one.two.three.four"] {
        assert_eq!(
            verify(bad, &Jwks::parse(KEYS).unwrap(), &expected(), 0).unwrap_err(),
            JwtError::Malformed,
            "{bad}"
        );
    }
}

#[test]
fn a_malformed_key_set_is_refused() {
    assert_eq!(Jwks::parse("not json").unwrap_err(), JwtError::MalformedKeys);
    assert_eq!(Jwks::parse("{}").unwrap_err(), JwtError::MalformedKeys);
}

#[test]
fn a_header_that_is_not_base64_or_json_is_a_malformed_segment() {
    let keys = Jwks::parse(KEYS).unwrap();
    assert_eq!(
        verify("!!!.e30.e30", &keys, &expected(), 0).unwrap_err(),
        JwtError::MalformedSegment("header")
    );
    let not_json = token("this is not json", "{}");
    assert_eq!(
        verify(&not_json, &keys, &expected(), 0).unwrap_err(),
        JwtError::MalformedSegment("header")
    );
}

#[test]
fn a_key_that_is_not_rsa_is_refused() {
    let keys = Jwks::parse(r#"{"keys":[{"kid":"k","kty":"EC","n":"AQAB","e":"AQAB"}]}"#)
        .unwrap();
    let token = token(r#"{"alg":"RS256","kid":"k"}"#, "{}");
    assert_eq!(
        verify(&token, &keys, &expected(), 0).unwrap_err(),
        JwtError::UnsupportedKeyType("EC".to_owned())
    );
}

#[test]
fn a_signature_that_is_not_base64_is_a_malformed_segment() {
    let header = URL_SAFE_NO_PAD.encode(r#"{"alg":"RS256","kid":"a"}"#);
    let token = format!("{header}.e30.!!!");
    assert_eq!(
        verify(&token, &Jwks::parse(KEYS).unwrap(), &expected(), 0).unwrap_err(),
        JwtError::MalformedSegment("signature")
    );
}

#[test]
fn the_first_key_with_the_id_is_chosen() {
    let keys = Jwks::parse(
        r#"{"keys":[{"kid":"x","kty":"RSA","n":"AQ","e":"AQ"},{"kid":"x","kty":"EC","n":"","e":""}]}"#,
    )
    .unwrap();
    assert_eq!(keys.keys.len(), 2);
    assert_eq!(keys.find("x").unwrap().kty, "RSA");
    assert!(Jwks::parse(r#"{"keys":[{"kid":"x","kty":"RSA","n":"AQ"}]}"#).is_err());
    assert!(Jwks::parse(r#"{"keys":[]}"#).unwrap().keys.is_empty());
}

fn claims(iat: i64, exp: i64) -> Claims {
    Claims {
        iss: "https://example.test/".to_owned(),
        aud: "api://test".to_owned(),
        exp,
        iat,
        xid: None,
        xname: Some("TestPlayer".to_owned()),
        cpk: None,
    }
}

/// Expiry and issue time are judged with the leeway and no more.
#[test]
fn the_leeway_widens_the_window_by_exactly_its_value() {
    let e = expected();
    assert_eq!(check_claims(&claims(0, 1000), &e, 1060), Ok(()));
    assert_eq!(
        check_claims(&claims(0, 1000), &e, 1061),
        Err(JwtError::Expired { expiry: 1000, now: 1061 })
    );
    assert_eq!(check_claims(&claims(1000, 5000), &e, 940), Ok(()));
    assert_eq!(
        check_claims(&claims(1000, 5000), &e, 939),
        Err(JwtError::NotYetValid { issued: 1000, now: 939 })
    );
}

#[test]
fn issuer_and_audience_are_checked_first() {
    let e = expected();
    let mut c = claims(0, 10);
    c.iss = "https://someone-else.test/".to_owned();
    assert_eq!(
        check_claims(&c, &e, 1_000_000),
        Err(JwtError::WrongIssuer("https://someone-else.test/".to_owned()))
    );
    let mut c = claims(0, 10);
    c.aud = "api://elsewhere".to_owned();
    assert_eq!(
        check_claims(&c, &e, 1_000_000),
        Err(JwtError::WrongAudience("api://elsewhere".to_owned()))
    );
}

#[test]
fn extreme_times_do_not_overflow() {
    let e = expected();
    assert!(matches!(
        check_claims(&claims(i64::MIN, i64::MAX), &e, i64::MAX),
        Ok(())
    ));
    assert!(matches!(
        check_claims(&claims(i64::MIN, i64::MIN), &e, i64::MAX),
        Err(JwtError::Expired { .. })
    ));
}
