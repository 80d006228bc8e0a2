use pulse::config::{csv, drop_empty, env_or, join_path, parse_product_keys, Config};

fn vars(pairs: &[(&str, &str)]) -> Vec<(String, String)> {
    pairs.iter().map(|(k, v)| (k.to_string(), v.to_string())).collect()
}

const KEY: (&str, &str) = ("PULSE_ADMIN_KEY", " 0123456789abcdef ");

fn fault(pairs: &[(&str, &str)]) -> String {
    match Config::from_env(&vars(pairs)) {
        Ok(_) => panic!("accepted"),
        Err(e) => e,
    }
}

#[test]
fn defaults_of_the_environment() {
    let c = Config::from_env(&vars(&[KEY])).unwrap_or_else(|e| panic!("{e}"));
    assert_eq!(c.port, 8080);
    assert_eq!(c.data_dir, "./data");
    assert_eq!(c.admin_key, "0123456789abcdef");
    assert!(c.server_keys.is_empty());
    assert!(c.client_keys.is_empty());
    assert!(c.allowed_origins.is_empty());
    assert!(c.allowed_hosts.is_empty());
    assert_eq!(c.compact_interval_secs, 60);
    assert_eq!(c.ttl_days, 730);
    assert_eq!(
        c.property_denylist,
        vec!["email", "phone", "name", "first_name", "last_name", "password", "token"]
    );
    assert_eq!(c.wal_dir(), "./data/wal");
    assert_eq!(c.events_dir(), "./data/events");
}

#[test]
fn every_variable_is_read() {
    let c = Config::from_env(&vars(&[
        KEY,
        ("PULSE_PORT", "+9"),
        ("PULSE_DATA_DIR", "/d/"),
        ("PULSE_SERVER_KEYS", "demo:ps_demo_0123456789"),
        ("PULSE_CLIENT_KEYS", "demo:pc_demo_0123456789,other:pc_other_0123456789"),
        ("PULSE_ALLOWED_ORIGINS", "https://A.example.com"),
        ("PULSE_ALLOWED_HOSTS", "Events.example.com, x"),
        ("PULSE_COMPACT_INTERVAL_SECS", "18446744073709551615"),
        ("PULSE_TTL_DAYS", "-9223372036854775808"),
        ("PULSE_PROPERTY_DENYLIST", ""),
    ]))
    .unwrap_or_else(|e| panic!("{e}"));
    assert_eq!(c.port, 9);
    assert_eq!(c.wal_dir(), "/d/wal");
    assert_eq!(c.events_dir(), "/d/events");
    assert_eq!(c.server_keys.len(), 1);
    assert_eq!(c.server_keys[0].product, "demo");
    assert_eq!(c.server_keys[0].key, "ps_demo_0123456789");
    assert_eq!(c.client_keys.len(), 2);
    assert_eq!(c.client_keys[1].product, "other");
    assert_eq!(c.allowed_origins, vec!["https://a.example.com"]);
    assert_eq!(c.allowed_hosts, vec!["events.example.com", "x"]);
    assert_eq!(c.compact_interval_secs, u64::MAX);
    assert_eq!(c.ttl_days, i64::MIN);
    assert!(c.property_denylist.is_empty());
}

#[test]
fn faults_of_the_environment() {
    assert_eq!(fault(&[]), "PULSE_ADMIN_KEY is required");
    let short = "PULSE_ADMIN_KEY must be at least 16 characters";
    assert_eq!(fault(&[("PULSE_ADMIN_KEY", "0123456789abcde    ")]), short);
    for (port, message) in [
        ("", "cannot parse integer from empty string"),
        ("80 ", "invalid digit found in string"),
        ("-1", "invalid digit found in string"),
        ("65536", "number too large to fit in target type"),
    ] {
        assert_eq!(fault(&[KEY, ("PULSE_PORT", port)]), message);
    }
    assert_eq!(
        fault(&[KEY, ("PULSE_TTL_DAYS", "-9223372036854775809")]),
        "number too small to fit in target type"
    );
    assert_eq!(
        fault(&[KEY, ("PULSE_COMPACT_INTERVAL_SECS", "x")]),
        "invalid digit found in string"
    );
    // The first fault is the one that is told.
    assert_eq!(
        fault(&[KEY, ("PULSE_TTL_DAYS", ""), ("PULSE_CLIENT_KEYS", "x"), ("PULSE_SERVER_KEYS", "")]),
        "product key entries must be product:key"
    );
}

#[test]
fn admin_keys_are_measured_in_characters() {
    let short = "PULSE_ADMIN_KEY must be at least 16 characters";
    assert_eq!(fault(&[("PULSE_ADMIN_KEY", "éééééééé")]), short);
    assert_eq!(fault(&[("PULSE_ADMIN_KEY", &"é".repeat(15))]), short);
    assert!(Config::from_env(&vars(&[("PULSE_ADMIN_KEY", &"é".repeat(16))])).is_ok());
}

fn keys(s: &str) -> Result<Vec<(String, String)>, String> {
    parse_product_keys(s).map(|v| v.into_iter().map(|k| (k.product, k.key)).collect())
}

#[test]
fn product_keys_are_parsed() {
    assert_eq!(keys("").unwrap(), vec![]);
    assert_eq!(keys(" , ,").unwrap(), vec![]);
    assert_eq!(
        keys("myapp: ps_0123456789abc ,, other : a:b:0123456789abcdef").unwrap(),
        vec![
            ("myapp".to_string(), "ps_0123456789abc".to_string()),
            ("other".to_string(), "a:b:0123456789abcdef".to_string()),
        ]
    );
    assert_eq!(keys("myapp").unwrap_err(), "product key entries must be product:key");
    assert_eq!(keys(":0123456789abcdef").unwrap_err(), "invalid product '' in product keys");
    assert_eq!(keys("a b:0123456789abcdef").unwrap_err(), "invalid product 'a b' in product keys");
    assert_eq!(
        keys("a:0123456789abcdef,b:0123456789abcde").unwrap_err(),
        "key for 'b' must be at least 16 characters"
    );
}

#[test]
fn lists_are_parsed() {
    assert_eq!(csv("Email, PHONE ,,\tName"), vec!["email", "phone", "name"]);
    assert_eq!(csv("École"), vec!["école"]);
    assert!(csv("").is_empty());
    assert!(csv(" , ").is_empty());
    assert_eq!(csv(" A ,,b "), vec!["a", "b"]);
    assert_eq!(csv("a,A,a"), vec!["a", "a", "a"]);
    for list in ["", " A ,,b ", "Email, PHONE ,,\tName", ",x y,"] {
        assert_eq!(csv(&csv(list).join(",")), csv(list));
    }
    let items: Vec<String> = ["a", "", "b", ""].iter().map(|s| s.to_string()).collect();
    assert_eq!(drop_empty(&items), vec!["a", "b"]);
}

#[test]
fn variables_have_defaults() {
    let v = vars(&[("A", "1"), ("B", "")]);
    assert_eq!(env_or(&v, "A", "x"), "1");
    assert_eq!(env_or(&v, "B", "x"), "");
    assert_eq!(env_or(&v, "C", "x"), "x");
}

#[test]
fn paths_are_joined_as_std_does() {
    for dir in ["", "/", "a", "a/", "./data", "a//", "/x/y"] {
        let want = std::path::Path::new(dir).join("wal");
        assert_eq!(join_path(dir, "wal"), want.to_str().unwrap());
    }
}
