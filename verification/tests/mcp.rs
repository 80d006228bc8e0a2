use pulse::mcp::{QueryEventsParams, UserTimelineParams};

fn params(user: Option<&str>, visitor: Option<&str>, since: Option<&str>) -> UserTimelineParams {
    UserTimelineParams {
        product: "de'mo".to_string(),
        user_id: user.map(|s| s.to_string()),
        anonymous_id: visitor.map(|s| s.to_string()),
        since: since.map(|s| s.to_string()),
        limit: None,
    }
}

const SELECT: &str = "SELECT occurred_at, event, source, session_id, properties, context FROM events WHERE product = 'de''mo'";

#[test]
fn timelines_of_users_have_their_anonymous_past() {
    let user = "(user_id = 'u1' OR anonymous_id IN (SELECT anonymous_id FROM identity_links WHERE user_id = 'u1' AND product = 'de''mo'))";
    assert_eq!(
        params(Some("u1"), None, None).sql().unwrap(),
        format!("{SELECT} AND {user} ORDER BY occurred_at")
    );
    assert_eq!(
        params(Some("u1"), Some("a1"), Some("2026-06-01")).sql().unwrap(),
        format!("{SELECT} AND {user} AND occurred_at >= '2026-06-01' ORDER BY occurred_at")
    );
}

#[test]
fn timelines_of_visitors() {
    for user in [None, Some("")] {
        assert_eq!(
            params(user, Some("a'1"), None).sql().unwrap(),
            format!("{SELECT} AND anonymous_id = 'a''1' ORDER BY occurred_at")
        );
    }
}

#[test]
fn timelines_need_an_id() {
    for (user, visitor) in [(None, None), (Some(""), None), (None, Some("")), (Some(""), Some(""))] {
        assert_eq!(
            params(user, visitor, None).sql().unwrap_err(),
            "provide user_id or anonymous_id"
        );
    }
}

#[test]
fn row_limits_of_the_tools() {
    let query = |limit| QueryEventsParams {
        sql: String::new(),
        limit,
    };
    assert_eq!(query(None).rows(), 1000);
    assert_eq!(query(Some(10)).rows(), 10);
    assert_eq!(query(Some(20_000)).rows(), 10_000);
    let mut timeline = params(None, None, None);
    assert_eq!(timeline.rows(), 200);
    timeline.limit = Some(usize::MAX);
    assert_eq!(timeline.rows(), 10_000);
}
