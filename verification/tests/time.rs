use pulse::text::text_before;
use pulse::time::Instant;

fn at(s: &str) -> Instant {
    Instant::parse_rfc3339(s).unwrap()
}

#[test]
fn instants_are_written() {
    assert_eq!(Instant::new(0, 0).unwrap().rfc3339(), "1970-01-01T00:00:00.000Z");
    assert_eq!(Instant::new(-1, 999_999_999).unwrap().rfc3339(), "1969-12-31T23:59:59.999Z");
    assert_eq!(at("2024-02-29T23:59:60.5Z").rfc3339(), "2024-02-29T23:59:60.500Z");
    assert_eq!(at("0000-01-01T00:00:00Z").rfc3339(), "0000-01-01T00:00:00.000Z");
    assert_eq!(at("2026-01-15T10:30:00+03:00").rfc3339(), "2026-01-15T07:30:00.000Z");
    assert_eq!(at("2026-01-15T00:30:00+03:00").date(), "2026-01-14");
    assert_eq!(Instant::new(253_402_300_800, 0).unwrap().rfc3339(), "+10000-01-01T00:00:00.000Z");
    assert_eq!(Instant::new(-62_167_219_201, 0).unwrap().date(), "-0001-12-31");
}

#[test]
fn instants_end_where_chrono_does() {
    let min = chrono::DateTime::<chrono::Utc>::MIN_UTC;
    let max = chrono::DateTime::<chrono::Utc>::MAX_UTC;
    assert!(Instant::new(min.timestamp(), 0).is_some());
    assert!(Instant::new(min.timestamp() - 1, 0).is_none());
    assert!(Instant::new(max.timestamp(), max.timestamp_subsec_nanos()).is_some());
    assert!(Instant::new(max.timestamp() + 1, 0).is_none());
    assert!(Instant::new(59, 1_999_999_999).is_some());
    assert!(Instant::new(58, 1_000_000_000).is_none());
    assert!(Instant::new(0, 2_000_000_000).is_none());
    assert!(chrono::DateTime::from_timestamp(58, 1_000_000_000).is_none());
    let first = Instant::new(min.timestamp(), 0).unwrap();
    assert_eq!(first.date(), min.format("%Y-%m-%d").to_string());
    assert_eq!(first.rfc3339(), min.to_rfc3339_opts(chrono::SecondsFormat::Millis, true));
    let last = Instant::new(max.timestamp(), max.timestamp_subsec_nanos()).unwrap();
    assert_eq!(last.rfc3339(), max.to_rfc3339_opts(chrono::SecondsFormat::Millis, true));
}

#[test]
fn texts_agree_with_chrono() {
    let mut secs: i64 = -62_167_219_200;
    while secs < 260_000_000_000 {
        for nanos in [0u32, 1_000_000, 999_999_999] {
            let t = chrono::DateTime::from_timestamp(secs, nanos).unwrap();
            let i = Instant::new(secs, nanos).unwrap();
            assert_eq!(i.rfc3339(), t.to_rfc3339_opts(chrono::SecondsFormat::Millis, true));
            assert_eq!(i.date(), t.format("%Y-%m-%d").to_string());
            assert_eq!(i.timestamp_millis(), t.timestamp_millis());
        }
        secs += 86_400 * 97 + 12_345;
    }
}

#[test]
fn texts_read_back_to_the_millisecond() {
    for (secs, nanos) in [(0, 0), (1_780_000_000, 123_456_789), (-1, 999_999_999), (59, 1_500_000_000)] {
        let t = Instant::new(secs, nanos).unwrap();
        let cut = Instant::new(secs, nanos / 1_000_000 * 1_000_000).unwrap();
        assert_eq!(Instant::parse_rfc3339(&t.rfc3339()), Some(cut));
    }
}

#[test]
fn texts_that_are_no_instant() {
    for s in ["", "yesterday", "2026-01-15", "2026-01-15T10:30:00", "2026-02-30T00:00:00Z", "+10000-01-01T00:00:00Z"] {
        assert_eq!(Instant::parse_rfc3339(s), None, "{s}");
    }
}

#[test]
fn texts_sort_by_time() {
    let times = [
        "0001-01-01T00:00:00Z",
        "1969-12-31T23:59:59.999Z",
        "1970-01-01T00:00:00Z",
        "2016-12-31T23:59:60.999Z",
        "2017-01-01T00:00:00Z",
        "2026-06-01T10:00:00.001Z",
        "2026-06-01T10:00:01Z",
        "9999-12-31T23:59:59Z",
    ];
    for pair in times.windows(2) {
        let (a, b) = (at(pair[0]).rfc3339(), at(pair[1]).rfc3339());
        assert!(text_before(&a, &b), "{a} {b}");
        assert!(!text_before(&b, &a));
        assert!(!text_before(&at(pair[1]).date(), &at(pair[0]).date()));
    }
}

#[test]
fn bare_dates_bound_texts() {
    assert!(text_before(&at("2026-05-31T23:59:59.999Z").rfc3339(), "2026-06-01"));
    assert!(!text_before(&at("2026-06-01T00:00:00Z").rfc3339(), "2026-06-01"));
    assert!(at("2026-06-01T12:00:00Z").rfc3339().starts_with(&at("2026-06-01T12:00:00Z").date()));
}

#[test]
fn days_back() {
    assert_eq!(at("2026-03-01T12:34:56.789Z").minus_days(1), Some(at("2026-02-28T12:34:56.789Z")));
    assert_eq!(at("2024-03-01T00:00:00Z").minus_days(1).unwrap().date(), "2024-02-29");
    assert_eq!(at("2016-12-31T23:59:60.5Z").minus_days(1), Some(at("2016-12-31T00:00:00.5Z")));
    assert_eq!(at("2026-03-01T00:00:00Z").minus_days(200_000_000), None);
    assert_eq!(at("2026-03-01T00:00:00Z").minus_days(i64::MAX), None);
}
