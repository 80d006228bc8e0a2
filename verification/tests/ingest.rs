use pulse::auth::Refusal;
use pulse::config::{Config, ProductKey};
use pulse::event::IncomingEvent;
use pulse::ingest::{
    authenticate, check_size, ingest, pin, reply, sort_results, Batch, Grant, IngestQuery, Outcome,
    Reply, MAX_BATCH,
};
use pulse::time::Instant;

const KEY: &str = "test-key-0123456789abcdef";
const SERVER_KEY: &str = "ps_demo_0123456789abcdef";
const CLIENT_KEY: &str = "pc_demo_0123456789abcdef";

fn key(product: &str, key: &str) -> ProductKey {
    ProductKey {
        product: product.to_string(),
        key: key.to_string(),
    }
}

fn config() -> Config {
    Config {
        port: 0,
        data_dir: String::new(),
        admin_key: KEY.to_string(),
        server_keys: vec![key("demo", SERVER_KEY), key("admin", KEY)],
        client_keys: vec![key("demo", CLIENT_KEY)],
        allowed_origins: vec![],
        allowed_hosts: vec![],
        compact_interval_secs: 3600,
        ttl_days: 730,
        property_denylist: vec!["email".to_string(), "phone".to_string()],
    }
}

fn event(name: Option<&str>, source: Option<&str>) -> IncomingEvent {
    IncomingEvent {
        product: Some("spoofed".to_string()),
        event: name.map(|s| s.to_string()),
        occurred_at: None,
        anonymous_id: None,
        user_id: Some("u1".to_string()),
        session_id: None,
        source: source.map(|s| s.to_string()),
        properties: serde_json::from_str(r#"{"email": "a@b.c", "plan": "pro"}"#).unwrap(),
        context: None,
    }
}

fn now() -> Instant {
    Instant::parse_rfc3339("2026-06-01T10:00:00Z").unwrap()
}

fn send(header: Option<&str>, query: Option<&str>, batch: Batch) -> Result<Outcome, (u16, String)> {
    let header = header.map(|k| format!("Bearer {k}"));
    let query = IngestQuery {
        key: query.map(|k| k.to_string()),
    };
    ingest(&config(), header.as_ref().map(|h| h.as_bytes()), query, batch, &now())
        .map_err(|f| (f.status, f.message))
}

fn column(line: &str, name: &str) -> String {
    let v: serde_json::Value = serde_json::from_str(line).unwrap();
    v[name].as_str().unwrap().to_string()
}

fn grant_of(header: Option<&str>, query: Option<&str>) -> Result<(String, bool), Refusal> {
    let header = header.map(|k| format!("Bearer {k}"));
    authenticate(
        &config(),
        header.as_ref().map(|h| h.as_bytes()),
        query.map(|k| k.to_string()),
    )
    .map(|g| (g.product, g.trusted))
}

#[test]
fn keys_grant_what_their_tier_allows() {
    let demo = |trusted| Ok(("demo".to_string(), trusted));
    assert_eq!(grant_of(Some(SERVER_KEY), None), demo(true));
    assert_eq!(grant_of(Some(CLIENT_KEY), None), demo(false));
    assert_eq!(grant_of(None, Some(CLIENT_KEY)), demo(false));
    assert_eq!(grant_of(None, Some(SERVER_KEY)), demo(true));
    // The header goes before the query.
    assert_eq!(grant_of(Some(CLIENT_KEY), Some(SERVER_KEY)), demo(false));
    assert_eq!(grant_of(Some("nope"), Some(SERVER_KEY)), Err(Refusal::Unauthorized));
    for (header, query) in [(None, None), (Some(""), None), (None, Some("")), (Some("nope"), None)] {
        assert_eq!(grant_of(header, query), Err(Refusal::Unauthorized));
    }
}

#[test]
fn the_operators_key_cannot_write() {
    // Not even where a product has the same key.
    assert_eq!(grant_of(Some(KEY), None), Err(Refusal::Unauthorized));
    assert_eq!(grant_of(None, Some(KEY)), Err(Refusal::Unauthorized));
}

#[test]
fn requests_without_a_key_are_refused() {
    let failure = send(None, None, Batch::Bare(vec![])).err().unwrap();
    assert_eq!(failure, (401, "invalid or missing API key".to_string()));
}

#[test]
fn batches_have_a_size() {
    let events = |n: usize| (0..n).map(|_| event(Some("x"), None)).collect::<Vec<_>>();
    let failure = send(Some(SERVER_KEY), None, Batch::Bare(events(0))).err().unwrap();
    assert_eq!(failure, (400, "empty batch".to_string()));
    let failure = send(Some(SERVER_KEY), None, Batch::Bare(events(MAX_BATCH + 1))).err().unwrap();
    assert_eq!(failure, (413, "batch too large: max 500 events".to_string()));
    let outcome = send(Some(SERVER_KEY), None, Batch::Bare(events(MAX_BATCH))).ok().unwrap();
    assert_eq!(outcome.lines.len(), 500);
    assert!(check_size(1).is_none());
}

#[test]
fn events_are_validated_and_scrubbed() {
    let events = vec![event(Some("signup"), None), event(None, None), event(Some("x"), Some("moon"))];
    let outcome = send(Some(SERVER_KEY), None, Batch::Wrapped { events }).ok().unwrap();
    assert_eq!(outcome.lines.len(), 1);
    assert_eq!(outcome.rejected.len(), 2);
    assert_eq!(outcome.rejected[0].index, 1);
    assert_eq!(outcome.rejected[0].reason, "invalid event name: 1..200 chars required");
    assert_eq!(outcome.rejected[1].index, 2);
    assert_eq!(outcome.rejected[1].reason, "invalid source 'moon': client|server");
    assert!(!outcome.lines[0].contains("a@b.c"));
    assert!(outcome.lines[0].contains(r#"\"plan\":\"pro\""#));
    assert_eq!(column(&outcome.lines[0], "received_at"), "2026-06-01T10:00:00.000Z");
}

#[test]
fn client_keys_pin_product_and_source() {
    let events = vec![event(Some("a"), Some("server")), event(Some("b"), None), event(Some("c"), Some("moon"))];
    let outcome = send(Some(CLIENT_KEY), None, Batch::Bare(events)).ok().unwrap();
    assert_eq!(outcome.lines.len(), 3);
    for line in &outcome.lines {
        assert_eq!(column(line, "product"), "demo");
        assert_eq!(column(line, "source"), "client");
    }
}

#[test]
fn server_keys_pin_the_product_only() {
    let events = vec![event(Some("a"), Some("server")), event(Some("b"), None), event(Some("c"), Some("client"))];
    let outcome = send(Some(SERVER_KEY), None, Batch::Bare(events)).ok().unwrap();
    let sources: Vec<String> = outcome.lines.iter().map(|l| column(l, "source")).collect();
    assert_eq!(sources, vec!["server", "server", "client"]);
    for line in &outcome.lines {
        assert_eq!(column(line, "product"), "demo");
    }
}

#[test]
fn pinning_leaves_the_rest_alone() {
    let grant = Grant {
        product: "p".to_string(),
        trusted: false,
    };
    let ev = pin(event(Some("a"), None), &grant);
    assert_eq!(ev.product.as_deref(), Some("p"));
    assert_eq!(ev.source.as_deref(), Some("client"));
    assert_eq!(ev.event.as_deref(), Some("a"));
    assert_eq!(ev.user_id.as_deref(), Some("u1"));
    assert_eq!(ev.properties.unwrap().len(), 2);
}

#[test]
fn every_result_is_a_line_or_a_rejection() {
    let results = vec![
        Err("first".to_string()),
        Ok("a".to_string()),
        Err("second".to_string()),
        Ok("b".to_string()),
    ];
    let outcome = sort_results(results);
    assert_eq!(outcome.lines, vec!["a", "b"]);
    let rejected: Vec<(usize, String)> =
        outcome.rejected.into_iter().map(|r| (r.index, r.reason)).collect();
    assert_eq!(rejected, vec![(0, "first".to_string()), (2, "second".to_string())]);
}

#[test]
fn success_waits_for_the_log() {
    let outcome = |lines: &[&str]| Outcome {
        lines: lines.iter().map(|s| s.to_string()).collect(),
        rejected: vec![],
    };
    assert!(matches!(reply(outcome(&["a", "b"]), true), Reply::Accepted { accepted: 2, .. }));
    assert!(matches!(reply(outcome(&[]), false), Reply::Accepted { accepted: 0, .. }));
    match reply(outcome(&["a"]), false) {
        Reply::Accepted { .. } => panic!("accepted"),
        Reply::Failed(f) => {
            assert_eq!(f.status, 500);
            assert_eq!(f.message, "internal error");
        }
    }
}
