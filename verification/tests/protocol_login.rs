use bedrock::protocol::bytes::{Reader, Writer};
use bedrock::protocol::login::{Limits, Login, LoginError};

/// Builds a login with the real framing and invented contents.
fn login(protocol: u32, identity: &str, client_data: &str) -> Vec<u8> {
    let mut blob = Writer::new();
    blob.u32(u32::try_from(identity.len()).unwrap_or(u32::MAX))
        .bytes(identity.as_bytes())
        .u32(u32::try_from(client_data.len()).unwrap_or(u32::MAX))
        .bytes(client_data.as_bytes());

    let mut w = Writer::new();
    w.u32_be(protocol).prefixed(&blob.finish());
    w.finish()
}

#[test]
fn a_login_round_trips() {
    let identity = r#"{"AuthenticationType":0,"Token":"eyJhbGciOiJSUzI1NiJ9.e30.sig"}"#;
    let client_data = "eyJhbGciOiJFUzM4NCJ9.e30.sig";
    let body = login(1001, identity, client_data);

    let decoded = Login::decode(&body, &Limits::default()).unwrap();
    assert_eq!(decoded.client_protocol, 1001);
    assert_eq!(decoded.identity, identity);
    assert_eq!(decoded.client_data, client_data);
}

#[test]
fn the_captured_framing_is_reproduced() {
    let body = login(1001, "{}", "x");
    assert_eq!(&body[..4], &[0x00, 0x00, 0x03, 0xe9], "protocol is big-endian");

    let mut r = Reader::new(&body[4..]);
    let blob = r.prefixed().unwrap();
    assert_eq!(&blob[..4], &[0x02, 0x00, 0x00, 0x00], "section length is little-endian");
}

#[test]
fn the_protocol_version_is_readable_before_anything_else() {
    let body = login(999, "{}", "x");
    assert_eq!(
        Login::decode(&body, &Limits::default()).unwrap().client_protocol,
        999
    );
}

#[test]
fn a_section_beyond_the_limit_is_refused_before_reading_it() {
    let limits = Limits {
        max_identity: 8,
        ..Limits::default()
    };
    let body = login(1001, "an identity longer than eight bytes", "x");
    assert!(matches!(
        Login::decode(&body, &limits),
        Err(LoginError::TooLarge { .. })
    ));
}

#[test]
fn a_lying_section_length_fails_cleanly() {
    let mut blob = Writer::new();
    blob.u32(9_999).bytes(b"short");
    let mut w = Writer::new();
    w.u32_be(1001).prefixed(&blob.finish());

    assert!(matches!(
        Login::decode(&w.finish(), &Limits::default()),
        Err(LoginError::Malformed(_))
    ));
}

#[test]
fn invalid_utf8_is_named_not_guessed() {
    let mut blob = Writer::new();
    blob.u32(2).bytes(&[0xff, 0xfe]).u32(0);
    let mut w = Writer::new();
    w.u32_be(1001).prefixed(&blob.finish());

    assert_eq!(
        Login::decode(&w.finish(), &Limits::default()),
        Err(LoginError::NotUtf8("identity"))
    );
}

#[test]
fn truncated_logins_never_panic() {
    let full = login(1001, r#"{"AuthenticationType":0}"#, "token");
    for n in 0..full.len() {
        let _ = Login::decode(&full[..n], &Limits::default());
    }
}

#[test]
fn decoding_borrows_from_the_body() {
    let client_data = "e".repeat(100_000);
    let body = login(1001, "{}", &client_data);
    let decoded = Login::decode(&body, &Limits::default()).unwrap();
    assert!(std::ptr::eq(
        decoded.client_data.as_ptr(),
        body[body.len() - client_data.len()..].as_ptr()
    ));
}

#[test]
fn the_too_large_error_names_the_section_and_both_numbers() {
    let limits = Limits {
        max_identity: 8,
        max_client_data: 3,
    };
    let body = login(1001, "{}", "four");
    assert_eq!(
        Login::decode(&body, &limits),
        Err(LoginError::TooLarge {
            section: "client data",
            declared: 4,
            limit: 3
        })
    );
}
