use pulse::listing::sealed_files;
use pulse::time::Instant;
use pulse::wal::{current_path, frame, seal_as};

fn v(items: &[&str]) -> Vec<String> {
    items.iter().map(|s| s.to_string()).collect()
}

#[test]
fn lines_are_framed() {
    assert_eq!(frame(&v(&[r#"{"a":1}"#, r#"{"a":2}"#])), b"{\"a\":1}\n{\"a\":2}\n");
    assert_eq!(frame(&v(&[r#"{"a":3}"#])), b"{\"a\":3}\n");
    assert_eq!(frame(&v(&["é", ""])), "é\n\n".as_bytes());
    assert!(frame(&[]).is_empty());
}

#[test]
fn batches_follow_each_other() {
    let mut log = frame(&v(&["a", "b"]));
    log.extend(frame(&v(&["c"])));
    assert_eq!(log, frame(&v(&["a", "b", "c"])));
    let text = String::from_utf8(log).unwrap();
    assert_eq!(text.lines().collect::<Vec<_>>(), vec!["a", "b", "c"]);
}

fn at(s: &str) -> Instant {
    Instant::parse_rfc3339(s).unwrap()
}

#[test]
fn only_a_file_with_lines_is_sealed() {
    let now = at("2026-06-01T10:00:00.007Z");
    assert_eq!(seal_as(0, &now, &[]), None);
    assert_eq!(seal_as(1, &now, &[]).unwrap(), "sealed-1780308000007.ndjson");
    let early = Instant::new(-1, 0).unwrap();
    assert_eq!(seal_as(1, &early, &[]).unwrap(), "sealed--1000.ndjson");
    // The first file of an empty directory, and the second call without lines.
    assert_eq!(seal_as(0, &now, &v(&["sealed-1780308000007.ndjson"])), None);
}

#[test]
fn no_sealed_file_is_replaced() {
    let now = at("2026-06-01T10:00:00.007Z");
    let mut names = v(&["current.ndjson"]);
    for n in 7..20 {
        let name = seal_as(1, &now, &names).unwrap();
        assert_eq!(name, format!("sealed-17803080000{n:02}.ndjson"));
        names.push(name.clone());
        assert_eq!(sealed_files(&names).last(), Some(&name));
    }
    // The clock was set back.
    assert_eq!(seal_as(1, &at("1970-01-01T00:00:05Z"), &names).unwrap(), "sealed-1780308000020.ndjson");
    // Later times are taken as they are.
    assert_eq!(seal_as(1, &at("2026-06-01T10:00:01Z"), &names).unwrap(), "sealed-1780308001000.ndjson");
}

#[test]
fn names_of_any_length_are_passed() {
    let now = Instant::new(0, 0).unwrap();
    let next = |name: &str| seal_as(1, &now, &v(&[name])).unwrap();
    assert_eq!(next("sealed-0.ndjson"), "sealed-1.ndjson");
    assert_eq!(next("sealed-999.ndjson"), "sealed-1000.ndjson");
    assert_eq!(
        next("sealed-99999999999999999999999999999999999999989.ndjson"),
        "sealed-99999999999999999999999999999999999999990.ndjson"
    );
    assert_eq!(next("sealed--5.ndjson"), "sealed-0.ndjson");
    // These hold no time.
    for name in ["sealed-007.ndjson", "sealed-.ndjson", "sealed--0.ndjson", "sealed-1.tmp", "sealed-+1.ndjson", "unsealed-9.ndjson"] {
        assert_eq!(next(name), "sealed-0.ndjson", "{name}");
    }
    let early = Instant::new(-1, 0).unwrap();
    assert_eq!(seal_as(1, &early, &v(&["sealed--1000.ndjson"])).unwrap(), "sealed--999.ndjson");
    assert_eq!(seal_as(1, &early, &v(&["sealed--1.ndjson"])).unwrap(), "sealed-0.ndjson");
}

#[test]
fn sealed_files_are_listed_oldest_first() {
    let names = v(&[
        "sealed-1780308000008.ndjson",
        "current.ndjson",
        "sealed-1780308000007.ndjson",
        "sealed-1780308000007.tmp",
        "unsealed-1.ndjson",
        "sealed-.ndjson",
    ]);
    let listed = vec!["sealed-.ndjson", "sealed-1780308000007.ndjson", "sealed-1780308000008.ndjson"];
    assert_eq!(sealed_files(&names), listed);
    assert_eq!(sealed_files(&sealed_files(&names)), listed);
    assert_eq!(
        sealed_files(&v(&["sealed-10.ndjson", "sealed-9.ndjson", "sealed--3.ndjson", "sealed--20.ndjson"])),
        vec!["sealed--20.ndjson", "sealed--3.ndjson", "sealed-9.ndjson", "sealed-10.ndjson"]
    );
    assert!(sealed_files(&[]).is_empty());
}

#[test]
fn names_without_a_time_stand_in_the_order_of_texts() {
    assert_eq!(
        sealed_files(&v(&["sealed-a.ndjson", "sealed-1.ndjson", "sealed-.ndjson"])),
        vec!["sealed-.ndjson", "sealed-1.ndjson", "sealed-a.ndjson"]
    );
    // Where the order of texts is oldest first, it is the order of the list.
    let mut names = v(&[
        "sealed-1780308000009.ndjson",
        "sealed-17803080000085.tmp.ndjson",
        "sealed-1780308000007.ndjson",
        "sealed-007.ndjson",
        "sealed-1780308000008.ndjson",
        "sealed-z.ndjson",
    ]);
    let listed = sealed_files(&names);
    names.sort();
    assert_eq!(listed, names);
    // Where it is not, the files that hold a time change places.
    assert_eq!(
        sealed_files(&v(&["sealed-9.ndjson", "sealed-5x.ndjson", "sealed-10.ndjson"])),
        vec!["sealed-9.ndjson", "sealed-5x.ndjson", "sealed-10.ndjson"]
    );
}

#[test]
fn the_current_file_has_a_path() {
    assert_eq!(current_path("./data/wal"), "./data/wal/current.ndjson");
}
