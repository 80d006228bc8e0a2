use pulse::event::{has_product_chars, keeps, normalize, sanitize, IncomingEvent};
use pulse::time::Instant;

fn object(json: &str) -> serde_json::Map<String, serde_json::Value> {
    serde_json::from_str(json).unwrap()
}

fn text(v: &serde_json::Value, key: &str) -> Option<String> {
    v.get(key).map(|s| s.as_str().unwrap().to_string())
}

fn incoming(json: &str) -> IncomingEvent {
    let v: serde_json::Value = serde_json::from_str(json).unwrap();
    IncomingEvent {
        product: text(&v, "product"),
        event: text(&v, "event"),
        occurred_at: text(&v, "occurred_at"),
        anonymous_id: text(&v, "anonymous_id"),
        user_id: text(&v, "user_id"),
        session_id: text(&v, "session_id"),
        source: text(&v, "source"),
        properties: v.get("properties").map(|o| o.as_object().unwrap().clone()),
        context: v.get("context").map(|o| o.as_object().unwrap().clone()),
    }
}

fn denylist() -> Vec<String> {
    vec!["email".to_string(), "phone".to_string()]
}

fn instant(t: chrono::DateTime<chrono::Utc>) -> Instant {
    Instant::new(t.timestamp(), t.timestamp_subsec_nanos()).unwrap()
}

fn now() -> Instant {
    instant(chrono::Utc::now())
}

#[test]
fn normalizes_minimal_event() {
    let now = chrono::Utc::now();
    let ev = incoming(r#"{"product": "constractio", "event": "signup"}"#);
    let se = normalize(ev, &instant(now), &denylist()).unwrap_or_else(|e| panic!("{e}"));
    assert_eq!(se.product, "constractio");
    assert_eq!(se.event, "signup");
    assert_eq!(se.source, "server");
    assert_eq!(se.occurred_at, se.received_at);
    assert_eq!(se.properties, "{}");
    assert_eq!(se.date, now.format("%Y-%m-%d").to_string());
}

#[test]
fn strips_denylisted_properties() {
    let ev = incoming(
        r#"{
            "product": "constractio",
            "event": "signup",
            "properties": {"Email": "a@b.c", "plan": "pro"},
            "context": {"phone": "+7900", "url": "/x"}
        }"#,
    );
    let se = normalize(ev, &now(), &denylist()).unwrap_or_else(|e| panic!("{e}"));
    assert_eq!(se.properties, r#"{"plan":"pro"}"#);
    assert_eq!(se.context, r#"{"url":"/x"}"#);
}

#[test]
fn rejects_bad_input() {
    let now = now();
    for (v, frag) in [
        (r#"{"event": "x"}"#, "product"),
        (r#"{"product": "a b", "event": "x"}"#, "product"),
        (r#"{"product": "a", "event": ""}"#, "event"),
        (r#"{"product": "a", "event": "x", "occurred_at": "yesterday"}"#, "occurred_at"),
        (r#"{"product": "a", "event": "x", "source": "satellite"}"#, "source"),
    ] {
        let err = match normalize(incoming(v), &now, &denylist()) {
            Ok(_) => panic!("accepted {v}"),
            Err(e) => e,
        };
        assert!(err.contains(frag), "expected '{frag}' in '{err}'");
    }
}

#[test]
fn respects_occurred_at_for_partition_date() {
    let ev = incoming(
        r#"{
            "product": "a", "event": "x",
            "occurred_at": "2026-01-15T10:30:00+03:00"
        }"#,
    );
    let se = normalize(ev, &now(), &denylist()).unwrap_or_else(|e| panic!("{e}"));
    assert_eq!(se.occurred_at, "2026-01-15T07:30:00.000Z");
    assert_eq!(se.date, "2026-01-15");
}

fn reason(json: &str) -> String {
    match normalize(incoming(json), &now(), &denylist()) {
        Ok(_) => panic!("accepted {json}"),
        Err(e) => e,
    }
}

#[test]
fn reasons_are_exact() {
    let product = "invalid product: [a-zA-Z0-9_-]{1,64} required";
    assert_eq!(reason(r#"{"event": "x"}"#), product);
    assert_eq!(reason(r#"{"product": "  ", "event": "x"}"#), product);
    assert_eq!(reason(r#"{"product": "é", "event": "x"}"#), product);
    assert_eq!(
        reason(&format!(r#"{{"product": "{}", "event": "x"}}"#, "p".repeat(65))),
        product
    );
    let event = "invalid event name: 1..200 chars required";
    assert_eq!(reason(r#"{"product": "a"}"#), event);
    assert_eq!(
        reason(&format!(r#"{{"product": "a", "event": "{}"}}"#, "e".repeat(201))),
        event
    );
    assert_eq!(
        reason(&format!(r#"{{"product": "a", "event": "{}"}}"#, "é".repeat(101))),
        event
    );
    assert_eq!(
        reason(r#"{"product": "a", "event": "x", "occurred_at": "2026-01-15"}"#),
        "invalid occurred_at: RFC3339 required"
    );
    assert_eq!(
        reason(r#"{"product": "a", "event": "x", "source": "Server"}"#),
        "invalid source 'Server': client|server"
    );
}

#[test]
fn the_first_fault_is_the_reason() {
    assert_eq!(
        reason(r#"{"product": "a", "event": "x", "occurred_at": "", "source": ""}"#),
        "invalid occurred_at: RFC3339 required"
    );
    assert_eq!(
        reason(r#"{"product": "!", "event": ""}"#),
        "invalid product: [a-zA-Z0-9_-]{1,64} required"
    );
}

#[test]
fn longest_names_are_accepted() {
    let json = format!(
        r#"{{"product": " {} ", "event": " {} "}}"#,
        "p".repeat(64),
        "é".repeat(100)
    );
    let se = normalize(incoming(&json), &now(), &denylist()).unwrap_or_else(|e| panic!("{e}"));
    assert_eq!(se.product, "p".repeat(64));
    assert_eq!(se.event, "é".repeat(100));
}

#[test]
fn all_columns_are_carried_over() {
    let ev = incoming(
        r#"{"product": "a", "event": "x", "anonymous_id": "an", "user_id": "u", "session_id": "s",
            "source": "client", "properties": {"b": [1, {"email": 2}], "a": "q\"\n"}}"#,
    );
    let at = Instant::parse_rfc3339("2026-06-01T10:00:00.123456Z").unwrap();
    let se = normalize(ev, &at, &denylist()).unwrap_or_else(|e| panic!("{e}"));
    assert_eq!(se.anonymous_id, "an");
    assert_eq!(se.user_id, "u");
    assert_eq!(se.session_id, "s");
    assert_eq!(se.source, "client");
    // Keys stand in order, and only those at the top are looked at.
    assert_eq!(se.properties, r#"{"a":"q\"\n","b":[1,{"email":2}]}"#);
    assert_eq!(se.context, "{}");
    assert_eq!(se.received_at, "2026-06-01T10:00:00.123Z");
    assert_eq!(se.date, "2026-06-01");
}

#[test]
fn lines_read_back() {
    let ev = incoming(
        r#"{"product": "a", "event": "x", "user_id": "q\"\\\n\u0001\u001f\u007fé",
            "properties": {"plan": "pro"}}"#,
    );
    let se = normalize(ev, &now(), &denylist()).unwrap_or_else(|e| panic!("{e}"));
    let line = se.to_line();
    assert!(!line.contains('\n'));
    let v: serde_json::Value = serde_json::from_str(&line).unwrap();
    assert_eq!(v["product"], "a");
    assert_eq!(v["event"], "x");
    assert_eq!(v["user_id"], "q\"\\\n\u{1}\u{1f}\u{7f}é");
    assert_eq!(v["properties"], r#"{"plan":"pro"}"#);
    assert_eq!(v["occurred_at"], se.occurred_at);
    assert_eq!(v["received_at"], se.received_at);
    assert_eq!(v["date"], se.date);
    assert_eq!(v["source"], "server");
    assert_eq!(v["context"], "{}");
    assert_eq!(v["anonymous_id"], "");
    assert_eq!(v["session_id"], "");
    assert_eq!(v.as_object().unwrap().len(), 11);
    assert!(line.starts_with(r#"{"product":"a","event":"x","occurred_at":""#));
    assert!(line.contains(r#""user_id":"q\"\\\n\u0001\u001fé""#.replace('é', "\u{7f}é").as_str()));
}

#[test]
fn events_without_a_time_occur_when_they_are_received() {
    let at = Instant::parse_rfc3339("2026-12-31T23:59:59.999Z").unwrap();
    let se = normalize(incoming(r#"{"product": "a", "event": "x"}"#), &at, &[])
        .unwrap_or_else(|e| panic!("{e}"));
    assert_eq!(se.occurred_at, "2026-12-31T23:59:59.999Z");
    assert_eq!(se.received_at, "2026-12-31T23:59:59.999Z");
    assert_eq!(se.date, "2026-12-31");
}

#[test]
fn sanitizing_drops_denied_keys_only() {
    let kept = sanitize(object(r#"{"EMAIL": 1, "Phone": 2, "plan": "pro", "emails": 3}"#), &denylist());
    assert_eq!(kept, object(r#"{"plan": "pro", "emails": 3}"#));
    assert!(keeps("plan", &denylist()));
    assert!(!keeps("eMaIl", &denylist()));
    assert!(!keeps("ÉCOLE", &["école".to_string()]));
}

#[test]
fn product_characters() {
    assert!(has_product_chars("aZ09_-"));
    assert!(has_product_chars(""));
    for s in ["a b", "a.b", "é", "a/b", "a:b"] {
        assert!(!has_product_chars(s), "{s}");
    }
}
