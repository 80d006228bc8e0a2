use pulse::funnel::{
    can_parse_window, check_steps, compute, count_steps, fold, funnel_sql, parse_window, EventRow,
    TimedRow, Window,
};

fn r(user: &str, ts: i64, step: usize) -> (String, i64, usize) {
    (user.to_string(), ts, step)
}

#[test]
fn counts_levels_in_order() {
    // u1 completes all 3, u2 reaches 2, u3 only entered.
    let rows = vec![
        r("u1", 0, 0),
        r("u1", 10, 1),
        r("u1", 20, 2),
        r("u2", 0, 0),
        r("u2", 5, 1),
        r("u3", 0, 0),
    ];
    assert_eq!(fold(rows.into_iter(), 3, 1000), vec![3, 2, 1]);
}

#[test]
fn out_of_order_steps_do_not_count() {
    // Step 2 before step 1: never advances past level 1.
    let rows = vec![r("u1", 0, 1), r("u1", 10, 0), r("u1", 5, 2)];
    assert_eq!(fold(rows.into_iter(), 3, 1000), vec![1, 0, 0]);
}

#[test]
fn window_cuts_off_slow_chains() {
    let rows = vec![r("u1", 0, 0), r("u1", 2000, 1)];
    assert_eq!(fold(rows.into_iter(), 2, 1000), vec![1, 0]);
    let rows = vec![r("u1", 0, 0), r("u1", 1000, 1)];
    assert_eq!(fold(rows.into_iter(), 2, 1000), vec![1, 1]);
}

#[test]
fn restart_uses_latest_entry() {
    // First entry too old, but the user re-enters and completes in time.
    let rows = vec![r("u1", 0, 0), r("u1", 5000, 0), r("u1", 5500, 1)];
    assert_eq!(fold(rows.into_iter(), 2, 1000), vec![1, 1]);
}

#[test]
fn parses_windows() {
    assert_eq!(parse_window("7d").unwrap(), Window::from_secs(604_800));
    assert_eq!(parse_window("24h").unwrap(), Window::from_secs(86_400));
    assert_eq!(parse_window("90m").unwrap(), Window::from_secs(5_400));
    assert!(parse_window("7w").is_err());
    assert!(parse_window("d").is_err());
}

#[test]
fn window_errors_are_exact() {
    let cases = [
        ("", "invalid window '': use e.g. 7d, 24h, 90m, 3600s"),
        ("  ", "invalid window '': use e.g. 7d, 24h, 90m, 3600s"),
        ("d", "invalid window 'd': use e.g. 7d, 24h, 90m, 3600s"),
        (" x7d ", "invalid window 'x7d': use e.g. 7d, 24h, 90m, 3600s"),
        ("-1d", "invalid window '-1d': use e.g. 7d, 24h, 90m, 3600s"),
        ("7w", "invalid window unit 'w': use d/h/m/s"),
        ("77", "invalid window unit '7': use d/h/m/s"),
        ("0d", "window must be positive"),
        ("00s", "window must be positive"),
        ("18446744073709551616s", "invalid window '18446744073709551616s': use e.g. 7d, 24h, 90m, 3600s"),
    ];
    for (text, message) in cases {
        assert!(can_parse_window(text), "{text}");
        assert_eq!(parse_window(text).unwrap_err(), message);
    }
}

#[test]
fn windows_at_the_edges() {
    assert_eq!(parse_window(" +3600s ").unwrap(), Window::from_secs(3600));
    assert_eq!(parse_window("1s").unwrap(), Window::from_millis(1000));
    assert_eq!(
        parse_window("18446744073709551615s").unwrap().as_millis(),
        18_446_744_073_709_551_615_000
    );
    assert!(can_parse_window("213503982334601d"));
    assert!(!can_parse_window("213503982334602d"));
    assert!(!can_parse_window("7д"));
}

fn names(v: &[&str]) -> Vec<String> {
    v.iter().map(|s| s.to_string()).collect()
}

#[test]
fn steps_are_checked() {
    assert_eq!(check_steps(&names(&["a", "b"])), None);
    assert_eq!(check_steps(&names(&["1", "2", "3", "4", "5", "6", "7", "8", "9", "10"])), None);
    let cases: [(&[&str], &str); 6] = [
        (&[], "funnel needs 2..=10 steps, got 0"),
        (&["a"], "funnel needs 2..=10 steps, got 1"),
        (
            &["1", "2", "3", "4", "5", "6", "7", "8", "9", "10", "11"],
            "funnel needs 2..=10 steps, got 11",
        ),
        (&["a", " "], "step 2 is empty"),
        (&["", ""], "step 1 is empty"),
        (&["a", "b", "a"], "duplicate step 'a': funnel steps must be distinct events"),
    ];
    for (steps, message) in cases {
        assert_eq!(check_steps(&names(steps)).unwrap(), message);
        assert_eq!(funnel_sql("p", &names(steps), &None, &None).unwrap_err(), message);
        assert_eq!(compute(&[], &names(steps), Window::from_secs(1)).unwrap_err(), message);
    }
}

const FROM: &str = "SELECT user_id, occurred_at, event FROM (SELECT product, user_id, occurred_at, event FROM events WHERE user_id <> '' UNION ALL SELECT e.product, l.user_id, e.occurred_at, e.event FROM events e JOIN identity_links l ON e.product = l.product AND e.anonymous_id = l.anonymous_id WHERE e.user_id = '') AS user_events";

#[test]
fn the_query_of_a_funnel() {
    let steps = names(&["signup", "o'clock"]);
    assert_eq!(
        funnel_sql("demo", &steps, &None, &None).unwrap(),
        format!(
            "{FROM} WHERE product = 'demo' AND event IN ('signup', 'o''clock') ORDER BY user_id, occurred_at"
        )
    );
    assert_eq!(
        funnel_sql(
            "demo",
            &steps,
            &Some("2026-06-01".to_string()),
            &Some("2026-07-01".to_string())
        )
        .unwrap(),
        format!(
            "{FROM} WHERE product = 'demo' AND event IN ('signup', 'o''clock') AND occurred_at >= '2026-06-01' AND occurred_at < '2026-07-01' ORDER BY user_id, occurred_at"
        )
    );
}

fn row(user: &str, at: &str, event: &str) -> EventRow {
    EventRow {
        user_id: user.to_string(),
        occurred_at: at.to_string(),
        event: event.to_string(),
    }
}

#[test]
fn users_are_counted_per_step() {
    // u1 completes signup, estimate, checkout; u2 stops after estimate; u3
    // only signs up; u4 does the steps out of order.
    let rows = [
        row("u1", "2026-06-01T10:00:00Z", "signup"),
        row("u1", "2026-06-01T11:00:00Z", "estimate"),
        row("u1", "2026-06-01T12:00:00Z", "checkout"),
        row("u2", "2026-06-01T10:00:00Z", "signup"),
        row("u2", "2026-06-02T10:00:00Z", "estimate"),
        row("u3", "2026-06-01T10:00:00Z", "signup"),
        row("u4", "2026-06-01T10:00:00Z", "checkout"),
        row("u4", "2026-06-01T11:00:00Z", "signup"),
    ];
    let steps = names(&["signup", "estimate", "checkout"]);
    assert_eq!(compute(&rows, &steps, Window::from_secs(7 * 86400)).unwrap(), vec![4, 2, 1]);
    // A tight window: u2's estimate came a day later and falls out.
    assert_eq!(compute(&rows, &steps, Window::from_secs(3 * 3600)).unwrap(), vec![4, 1, 1]);
}

#[test]
fn rows_without_a_time_or_a_step_do_not_count() {
    let rows = [
        row("u1", "2026-06-01T10:00:00Z", "a"),
        row("u1", "soon", "b"),
        row("u1", "2026-06-01T10:00:00Z", "c"),
        row("u2", "2026-06-01T10:00:00Z", "a"),
        row("u2", "2026-06-01T12:00:00+02:00", "b"),
    ];
    let steps = names(&["a", "b"]);
    assert_eq!(compute(&rows, &steps, Window::from_secs(1)).unwrap(), vec![2, 1]);
}

#[test]
fn timed_rows_count_as_their_texts_do() {
    let timed = |user: &str, millis: Option<i64>, event: &str| TimedRow {
        user_id: user.to_string(),
        millis,
        event: event.to_string(),
    };
    let rows = [
        timed("u", Some(0), "a"),
        timed("u", None, "b"),
        timed("v", Some(5), "a"),
        timed("v", Some(1005), "b"),
    ];
    let steps = names(&["a", "b"]);
    assert_eq!(count_steps(&rows, &steps, Window::from_millis(999)).unwrap(), vec![2, 0]);
    assert_eq!(count_steps(&rows, &steps, Window::from_millis(1000)).unwrap(), vec![2, 1]);
    assert_eq!(count_steps(&rows, &steps, Window::from_secs(u64::MAX)).unwrap(), vec![2, 1]);
    assert!(count_steps(&rows, &names(&["a"]), Window::from_secs(1)).is_err());
}

#[test]
fn no_step_is_reached_by_more_users_than_the_one_before() {
    let rows = vec![r("a", 0, 0), r("a", 1, 1), r("b", 0, 1), r("b", 1, 2), r("c", 0, 0)];
    assert_eq!(fold(rows.into_iter(), 3, 10), vec![2, 1, 0]);
    assert_eq!(fold(Vec::new().into_iter(), 3, 10), vec![0, 0, 0]);
}

#[test]
fn wider_windows_count_no_fewer() {
    let rows = || vec![r("a", 0, 0), r("a", 7, 1), r("b", 0, 0), r("b", 3, 1)].into_iter();
    assert_eq!(fold(rows(), 2, 2), vec![2, 0]);
    assert_eq!(fold(rows(), 2, 3), vec![2, 1]);
    assert_eq!(fold(rows(), 2, 7), vec![2, 2]);
}
