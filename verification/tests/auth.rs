use pulse::auth::{
    let_in, bearer, check_origin, cors_origins, key_matches, require_admin, require_auth, Refusal,
    Surface,
};
use pulse::config::{csv, Config, ProductKey};

const KEY: &str = "test-key-0123456789abcdef";

fn config(origins: &[&str]) -> Config {
    Config {
        port: 0,
        data_dir: String::new(),
        admin_key: KEY.to_string(),
        server_keys: vec![ProductKey {
            product: "demo".to_string(),
            key: "ps_demo_0123456789abcdef".to_string(),
        }],
        client_keys: vec![],
        allowed_origins: origins.iter().map(|o| o.to_string()).collect(),
        allowed_hosts: vec![],
        compact_interval_secs: 3600,
        ttl_days: 730,
        property_denylist: vec![],
    }
}

#[test]
fn key_comparison() {
    assert!(key_matches("secret-key-12345", "secret-key-12345"));
    assert!(!key_matches("secret-key-12346", "secret-key-12345"));
    assert!(!key_matches("", "secret-key-12345"));
    assert!(!key_matches("short", "secret-key-12345"));
}

#[test]
fn origins_are_checked() {
    let c = config(&["https://app.example.com"]);
    assert_eq!(check_origin(&c, None), Ok(()));
    assert_eq!(check_origin(&c, Some(b"https://app.example.com")), Ok(()));
    assert_eq!(check_origin(&c, Some(b"HTTPS://App.Example.COM")), Ok(()));
    for origin in [&b"https://evil.example.com"[..], b"", b"\xff", b"https://app.example.com "] {
        assert_eq!(check_origin(&c, Some(origin)), Err(Refusal::Forbidden));
    }
    assert_eq!(Refusal::Forbidden.status(), 403);
    assert_eq!(Refusal::Unauthorized.status(), 401);
}

#[test]
fn without_allowed_origins_every_origin_is_refused() {
    let c = config(&[]);
    assert_eq!(check_origin(&c, Some(b"https://app.example.com")), Err(Refusal::Forbidden));
    assert_eq!(check_origin(&c, None), Ok(()));
}

#[test]
fn listed_origins_pass() {
    let mut c = config(&[]);
    c.allowed_origins = csv(" https://A.example.com , ,http://b.example.com");
    assert_eq!(check_origin(&c, Some(b"https://a.example.com")), Ok(()));
    assert_eq!(check_origin(&c, Some(b"http://B.example.com")), Ok(()));
    assert_eq!(check_origin(&c, Some(b"http://c.example.com")), Err(Refusal::Forbidden));
    // An origin without printable text is none, even where it looks like one.
    assert_eq!(check_origin(&c, Some(b"http://b.example.com\xc3\xa9")), Err(Refusal::Forbidden));
}

#[test]
fn keys_of_the_authorization_header() {
    assert_eq!(bearer(None), "");
    assert_eq!(bearer(Some(b"Bearer abc")), "abc");
    assert_eq!(bearer(Some(b"Bearer  abc ")), " abc ");
    assert_eq!(bearer(Some(b"bearer abc")), "");
    assert_eq!(bearer(Some(b"Basic abc")), "");
    assert_eq!(bearer(Some(b"Bearer")), "");
    assert_eq!(bearer(Some(b"Bearer a\xe9")), "");
    assert_eq!(bearer(Some(b"Bearer a\tb")), "a\tb");
}

#[test]
fn only_the_operators_key_opens_the_admin_surface() {
    let c = config(&["https://app.example.com"]);
    let good = format!("Bearer {KEY}");
    assert_eq!(require_admin(&c, Some(good.as_bytes())), Ok(()));
    assert_eq!(require_admin(&c, None), Err(Refusal::Unauthorized));
    for wrong in ["Bearer ps_demo_0123456789abcdef", KEY, "Bearer nope-nope-nope-nope"] {
        assert_eq!(require_admin(&c, Some(wrong.as_bytes())), Err(Refusal::Unauthorized));
    }
}

#[test]
fn the_origin_is_looked_at_before_the_key() {
    let c = config(&["https://app.example.com"]);
    let good = format!("Bearer {KEY}");
    let good = Some(good.as_bytes());
    let origin = Some(&b"https://app.example.com"[..]);
    let other = Some(&b"https://evil.example.com"[..]);
    assert_eq!(require_auth(&c, origin, good), Ok(()));
    assert_eq!(require_auth(&c, None, good), Ok(()));
    assert_eq!(require_auth(&c, other, good), Err(Refusal::Forbidden));
    assert_eq!(require_auth(&c, other, None), Err(Refusal::Forbidden));
    assert_eq!(require_auth(&c, origin, None), Err(Refusal::Unauthorized));
}

#[test]
fn browsers_are_told_of_origins_that_fit_a_header() {
    let c = config(&["https://app.example.com", "bad\norigin", "tab\there", "é", "del\u{7f}"]);
    assert_eq!(cors_origins(&c), vec!["https://app.example.com", "tab\there", "é"]);
}

#[test]
fn each_part_of_the_server_has_its_gate() {
    let c = config(&["https://app.example.com"]);
    let key = format!("Bearer {KEY}");
    let key = Some(key.as_bytes());
    let product_key = Some(&b"Bearer ps_demo_0123456789abcdef"[..]);
    let other = Some(&b"https://evil.example.com"[..]);
    assert_eq!(let_in(&c, Surface::Health, other, None), Ok(()));
    assert_eq!(let_in(&c, Surface::Ingest, None, None), Ok(()));
    assert_eq!(let_in(&c, Surface::Ingest, other, product_key), Err(Refusal::Forbidden));
    assert_eq!(let_in(&c, Surface::Admin, None, key), Ok(()));
    assert_eq!(let_in(&c, Surface::Admin, None, product_key), Err(Refusal::Unauthorized));
    assert_eq!(let_in(&c, Surface::Admin, other, key), Err(Refusal::Forbidden));
}
