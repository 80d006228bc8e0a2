use pulse::query::{
    catalog, dir_url, events_view_sql, has_files_with_ext, join, parquet_file_schema, query_limit, sql_quote,
    views, wal_schema, Node, COLUMNS, MAX_ROWS,
};

#[test]
fn quotes_sql_literals() {
    assert_eq!(sql_quote("plain"), "'plain'");
    assert_eq!(sql_quote("o'brien"), "'o''brien'");
    assert_eq!(
        sql_quote("'; DROP TABLE events; --"),
        "'''; DROP TABLE events; --'"
    );
}

#[test]
fn the_log_has_the_columns_of_the_table() {
    assert_eq!(wal_schema(), COLUMNS);
    let mut columns = vec!["product".to_string()];
    columns.extend(parquet_file_schema());
    columns.push("date".to_string());
    assert_eq!(columns, COLUMNS);
}

#[test]
fn rows_are_capped() {
    assert_eq!(query_limit(None, 1000), 1000);
    assert_eq!(query_limit(Some(5), 1000), 5);
    assert_eq!(query_limit(Some(0), 1000), 0);
    assert_eq!(query_limit(Some(MAX_ROWS), 1000), 10_000);
    assert_eq!(query_limit(Some(MAX_ROWS + 1), 1000), 10_000);
    assert_eq!(query_limit(None, usize::MAX), 10_000);
}

#[test]
fn the_events_view_unites_the_tiers() {
    let columns = "product, event, occurred_at, received_at, anonymous_id, user_id, session_id, source, properties, context, date";
    assert_eq!(events_view_sql(false, false), None);
    assert_eq!(
        events_view_sql(true, false).unwrap(),
        format!("CREATE VIEW events AS SELECT {columns} FROM events_parquet")
    );
    assert_eq!(
        events_view_sql(false, true).unwrap(),
        format!("CREATE VIEW events AS SELECT {columns} FROM events_wal")
    );
    assert_eq!(
        events_view_sql(true, true).unwrap(),
        format!(
            "CREATE VIEW events AS SELECT {columns} FROM events_parquet UNION ALL SELECT {columns} FROM events_wal"
        )
    );
}

#[test]
fn texts_are_joined() {
    let v = |items: &[&str]| items.iter().map(|s| s.to_string()).collect::<Vec<String>>();
    assert_eq!(join(&v(&[]), ", "), "");
    assert_eq!(join(&v(&["a"]), ", "), "a");
    assert_eq!(join(&v(&["a", "", "c"]), ", "), "a, , c");
}

#[test]
fn directories_have_urls() {
    assert_eq!(dir_url("/data/events"), "file:///data/events/");
}

fn file(ext: Option<&str>, len: Option<u64>) -> Node {
    Node::File {
        ext: ext.map(|e| e.to_string()),
        len,
    }
}

#[test]
fn files_are_found_at_any_depth() {
    let deep = vec![Node::Dir {
        nodes: vec![
            file(Some("txt"), Some(9)),
            Node::Dir {
                nodes: vec![file(Some("parquet"), Some(1))],
            },
        ],
    }];
    assert!(has_files_with_ext(&deep, "parquet"));
    assert!(!has_files_with_ext(&deep, "ndjson"));
    // Empty files, files of unknown length and files without extension do not
    // count.
    let none = vec![
        file(Some("ndjson"), Some(0)),
        file(Some("ndjson"), None),
        file(None, Some(3)),
        Node::Dir { nodes: vec![] },
    ];
    assert!(!has_files_with_ext(&none, "ndjson"));
    assert!(!has_files_with_ext(&vec![], "ndjson"));
}

#[test]
fn catalogs_name_the_tiers_that_hold_files() {
    let full = |ext: &str| vec![file(Some(ext), Some(1))];
    let both = catalog("/d/events", &full("parquet"), "/d/wal", &full("ndjson"));
    assert_eq!(both.parquet.as_deref(), Some("file:///d/events/"));
    assert_eq!(both.wal.as_deref(), Some("file:///d/wal/"));
    assert!(!both.empty_events);
    assert_eq!(both.views, views(true, true));
    let log = catalog("/d/events", &vec![], "/d/wal", &full("ndjson"));
    assert_eq!(log.parquet, None);
    assert!(!log.empty_events);
    assert_eq!(log.views, views(false, true));
    let none = catalog("/d/events", &full("ndjson"), "/d/wal", &full("parquet"));
    assert_eq!((none.parquet, none.wal), (None, None));
    assert!(none.empty_events);
    assert_eq!(none.views, views(false, false));
}

#[test]
fn the_identity_links_come_after_the_events() {
    let links = "CREATE VIEW identity_links AS SELECT product, anonymous_id, user_id, min(occurred_at) AS linked_at FROM events WHERE event = '$identify' AND anonymous_id <> '' AND user_id <> '' GROUP BY product, anonymous_id, user_id";
    assert_eq!(views(false, false), vec![links]);
    let both = views(true, true);
    assert_eq!(both, vec![events_view_sql(true, true).unwrap(), links.to_string()]);
}
