//! The tools that agents call: their parameters, and the queries they come to.
use vstd::prelude::*;

use crate::funnel::{push_time_bound, time_bound, within};
use crate::query::{query_limit, quoted, row_limit, sql_quote, MAX_ROWS};
use crate::text::{copy_text, opt_text, text_or_empty};
use crate::time::{has_plain_year, is_instant, law_rfc3339_texts_sort_by_time, rfc3339_text};

verus! {

/// What the schema tool says of the table.
pub const SCHEMA_DOC: &'static str =
    "Table `events` — one row per analytics event. Columns (all Utf8): product (which app sent it), event (snake_case name), occurred_at / received_at (RFC3339 UTC, lexicographically sortable; cast via occurred_at::timestamp for date math), anonymous_id, user_id, session_id, source ('client'|'server'), properties (JSON string), context (JSON string: utm, url, referrer), date (YYYY-MM-DD partition key — filter on it for fast scans).";

/// The query of the schema tool: which events there are, how many, and since
/// when.
pub const SCHEMA_SQL: &'static str =
    "SELECT product, event, count(*) AS events, min(occurred_at) AS first_seen, max(occurred_at) AS last_seen FROM events GROUP BY product, event ORDER BY product, events DESC";

/// The parameters of a query.
pub struct QueryEventsParams {
    /// A SELECT against the `events` view.
    pub sql: String,
    /// How many rows to return at most: 1000 where it is not said, and never
    /// more than 10000.
    pub limit: Option<usize>,
}

impl QueryEventsParams {
    /// How many rows the query returns at most.
    pub fn rows(&self) -> (r: usize)
        ensures
            r == row_limit(self.limit, 1000),
            r <= MAX_ROWS,
    {
        query_limit(self.limit, 1000)
    }
}

/// The parameters of a user's timeline.
pub struct UserTimelineParams {
    /// The product that the user belongs to.
    pub product: String,
    /// The user's id; this or the anonymous id has to be there.
    pub user_id: Option<String>,
    /// A visitor's anonymous id.
    pub anonymous_id: Option<String>,
    /// Only events from this instant on, in RFC 3339.
    pub since: Option<String>,
    /// How many events to return at most: 200 where it is not said.
    pub limit: Option<usize>,
}

/// The parameters of a funnel.
pub struct FunnelParams {
    pub product: String,
    /// The names of two to ten different events, in order.
    pub steps: Vec<String>,
    /// The time for the whole chain, such as `7d` or `24h`.
    pub window: String,
    /// Only events from this instant on, in RFC 3339.
    pub since: Option<String>,
    /// Only events before this instant, in RFC 3339.
    pub until: Option<String>,
}

/// The condition that an event belongs to a user: it carries the user's id, or
/// an anonymous id that is tied to the user.
pub open spec fn user_condition(product: Seq<char>, user: Seq<char>) -> Seq<char> {
    "(user_id = "@ + quoted(user)
        + " OR anonymous_id IN (SELECT anonymous_id FROM identity_links WHERE user_id = "@
        + quoted(user) + " AND product = "@ + quoted(product) + "))"@
}

/// The condition for the events of a timeline: those of the user, or else
/// those of the visitor. `None` where neither is named.
pub open spec fn timeline_condition(
    product: Seq<char>,
    user: Option<Seq<char>>,
    visitor: Option<Seq<char>>,
) -> Option<Seq<char>> {
    if text_or_empty(user).len() > 0 {
        Some(user_condition(product, text_or_empty(user)))
    } else if text_or_empty(visitor).len() > 0 {
        Some("anonymous_id = "@ + quoted(text_or_empty(visitor)))
    } else {
        None
    }
}

/// The query for a timeline, its events in the order of time.
pub open spec fn timeline_query(
    product: Seq<char>,
    condition: Seq<char>,
    since: Option<Seq<char>>,
) -> Seq<char> {
    "SELECT occurred_at, event, source, session_id, properties, context FROM events WHERE product = "@
        + quoted(product) + " AND "@ + condition + time_bound(">="@, since)
        + " ORDER BY occurred_at"@
}

fn named(id: &Option<String>) -> (r: Option<&str>)
    ensures
        match r {
            Some(t) => t@.len() > 0 && t@ == text_or_empty(opt_text(*id)),
            None => text_or_empty(opt_text(*id)).len() == 0,
        },
{
    match id {
        Some(t) => if t.as_str().is_empty() {
            None
        } else {
            Some(t.as_str())
        },
        None => None,
    }
}

impl UserTimelineParams {
    /// The query for the timeline, or what is wrong with its parameters.
    pub fn sql(&self) -> (r: Result<String, String>)
        ensures
            ({
                let condition = timeline_condition(
                    self.product@,
                    opt_text(self.user_id),
                    opt_text(self.anonymous_id),
                );
                match r {
                    Ok(sql) => condition matches Some(c) && sql@ == timeline_query(
                        self.product@,
                        c,
                        opt_text(self.since),
                    ),
                    Err(e) => condition is None && e@ == "provide user_id or anonymous_id"@,
                }
            }),
    {
        let product = sql_quote(self.product.as_str());
        let mut condition = String::new();
        match named(&self.user_id) {
            Some(user) => {
                let user = sql_quote(user);
                condition = copy_text("(user_id = ");
                condition.append(user.as_str());
                condition.append(
                    " OR anonymous_id IN (SELECT anonymous_id FROM identity_links WHERE user_id = ",
                );
                condition.append(user.as_str());
                condition.append(" AND product = ");
                condition.append(product.as_str());
                condition.append("))");
            },
            None => match named(&self.anonymous_id) {
                Some(visitor) => {
                    condition = copy_text("anonymous_id = ");
                    condition.append(sql_quote(visitor).as_str());
                },
                None => {
                    return Err(copy_text("provide user_id or anonymous_id"));
                },
            },
        }
        let mut sql = copy_text(
            "SELECT occurred_at, event, source, session_id, properties, context FROM events WHERE product = ",
        );
        sql.append(product.as_str());
        sql.append(" AND ");
        sql.append(condition.as_str());
        push_time_bound(&mut sql, ">=", &self.since);
        sql.append(" ORDER BY occurred_at");
        Ok(sql)
    }

    /// How many events the timeline returns at most.
    pub fn rows(&self) -> (r: usize)
        ensures
            r == row_limit(self.limit, 200),
            r <= MAX_ROWS,
    {
        query_limit(self.limit, 200)
    }
}

/// A timeline is asked for with its product, its condition and, whenever
/// `since` is given, the condition that an event is not before it; it comes in
/// the order of time.
pub proof fn law_timelines_start_at_since(
    product: Seq<char>,
    condition: Seq<char>,
    since: Seq<char>,
)
    ensures
        ({
            let head =
                "SELECT occurred_at, event, source, session_id, properties, context FROM events WHERE product = "@
                + quoted(product) + " AND "@ + condition;
            &&& timeline_query(product, condition, Some(since)) == head + " AND occurred_at >= "@
                + quoted(since) + " ORDER BY occurred_at"@
            &&& timeline_query(product, condition, None) == head + " ORDER BY occurred_at"@
        }),
{
    reveal_strlit(" AND occurred_at ");
    reveal_strlit(">=");
    reveal_strlit(" ");
    reveal_strlit(" AND occurred_at >= ");
    let head =
        "SELECT occurred_at, event, source, session_id, properties, context FROM events WHERE product = "@
        + quoted(product) + " AND "@ + condition;
    assert(" AND occurred_at "@ + ">="@ + " "@ =~= " AND occurred_at >= "@);
    assert(timeline_query(product, condition, Some(since)) =~= head + " AND occurred_at >= "@
        + quoted(since) + " ORDER BY occurred_at"@);
    assert(timeline_query(product, condition, None) =~= head + " ORDER BY occurred_at"@);
}

/// What a timeline with `since` selects, by the order of texts in which the
/// query engine compares, are the events from that instant on, to the
/// millisecond and where years have four digits.
pub proof fn law_since_selects_by_time(at: (int, int), since: (int, int))
    requires
        is_instant(at.0, at.1) && has_plain_year(at.0),
        is_instant(since.0, since.1) && has_plain_year(since.0),
    ensures
        within(rfc3339_text(at.0, at.1), Some(rfc3339_text(since.0, since.1)), None) <==> at.0
            > since.0 || (at.0 == since.0 && at.1 / 1_000_000 >= since.1 / 1_000_000),
{
    law_rfc3339_texts_sort_by_time(at.0, at.1, since.0, since.1);
}

/// A timeline is that of the user whenever one is named, whoever the visitor
/// is; that of the visitor where only a visitor is named; and refused where
/// neither is.
pub proof fn law_timelines_go_by_user_then_visitor(
    product: Seq<char>,
    user: Seq<char>,
    visitor: Seq<char>,
    any: Option<Seq<char>>,
)
    requires
        user.len() > 0,
        visitor.len() > 0,
    ensures
        timeline_condition(product, Some(user), any) == Some(
            "(user_id = "@ + quoted(user)
                + " OR anonymous_id IN (SELECT anonymous_id FROM identity_links WHERE user_id = "@
                + quoted(user) + " AND product = "@ + quoted(product) + "))"@,
        ),
        timeline_condition(product, None, Some(visitor)) == Some(
            "anonymous_id = "@ + quoted(visitor),
        ),
        timeline_condition(product, Some(Seq::empty()), Some(visitor)) == Some(
            "anonymous_id = "@ + quoted(visitor),
        ),
        timeline_condition(product, None, None) is None,
        timeline_condition(product, Some(Seq::empty()), None) is None,
        timeline_condition(product, None, Some(Seq::empty())) is None,
        timeline_condition(product, Some(Seq::empty()), Some(Seq::empty())) is None,
{
}

/// The schema tool asks for every event of every product: how many there are,
/// and the times of the first and of the last, the most frequent first.
pub proof fn law_schema_is_told_by_product_and_event()
    ensures
        SCHEMA_SQL@
            == "SELECT product, event, count(*) AS events, min(occurred_at) AS first_seen, max(occurred_at) AS last_seen"@
            + " FROM events GROUP BY product, event"@ + " ORDER BY product, events DESC"@,
{
    reveal_strlit(
        "SELECT product, event, count(*) AS events, min(occurred_at) AS first_seen, max(occurred_at) AS last_seen FROM events GROUP BY product, event ORDER BY product, events DESC",
    );
    reveal_strlit(
        "SELECT product, event, count(*) AS events, min(occurred_at) AS first_seen, max(occurred_at) AS last_seen",
    );
    reveal_strlit(" FROM events GROUP BY product, event");
    reveal_strlit(" ORDER BY product, events DESC");
    assert(SCHEMA_SQL@
        =~= "SELECT product, event, count(*) AS events, min(occurred_at) AS first_seen, max(occurred_at) AS last_seen"@
        + " FROM events GROUP BY product, event"@ + " ORDER BY product, events DESC"@);
}

/// The query of a timeline holds its product, the condition for its user or
/// visitor and, whenever `since` is given, that an event is not before it.
/// There is one exactly if a user or a visitor is named.
pub proof fn law_timeline_queries_hold_their_parameters(
    params: &UserTimelineParams,
    r: Result<String, String>,
)
    requires
        call_ensures(UserTimelineParams::sql, (params,), r),
    ensures
        ({
            let user = text_or_empty(opt_text(params.user_id));
            let visitor = text_or_empty(opt_text(params.anonymous_id));
            &&& r is Ok <==> user.len() > 0 || visitor.len() > 0
            &&& r matches Err(e) ==> e@ == "provide user_id or anonymous_id"@
            &&& r matches Ok(sql) ==> ({
                let condition = if user.len() > 0 {
                    "(user_id = "@ + quoted(user)
                        + " OR anonymous_id IN (SELECT anonymous_id FROM identity_links WHERE user_id = "@
                        + quoted(user) + " AND product = "@ + quoted(params.product@) + "))"@
                } else {
                    "anonymous_id = "@ + quoted(visitor)
                };
                let head =
                    "SELECT occurred_at, event, source, session_id, properties, context FROM events WHERE product = "@
                    + quoted(params.product@) + " AND "@ + condition;
                match params.since {
                    Some(since) => sql@ == head + " AND occurred_at >= "@ + quoted(since@)
                        + " ORDER BY occurred_at"@,
                    None => sql@ == head + " ORDER BY occurred_at"@,
                }
            })
        }),
{
    let user = text_or_empty(opt_text(params.user_id));
    let visitor = text_or_empty(opt_text(params.anonymous_id));
    let condition = if user.len() > 0 {
        "(user_id = "@ + quoted(user)
            + " OR anonymous_id IN (SELECT anonymous_id FROM identity_links WHERE user_id = "@
            + quoted(user) + " AND product = "@ + quoted(params.product@) + "))"@
    } else {
        "anonymous_id = "@ + quoted(visitor)
    };
    let since = text_or_empty(opt_text(params.since));
    law_timelines_start_at_since(params.product@, condition, since);
}

/// A query returns as many rows as it asks for, 1000 where it does not say, and
/// a timeline 200; never more than ten thousand.
pub proof fn law_tools_return_so_many_rows(
    query: &QueryEventsParams,
    rows: usize,
    timeline: &UserTimelineParams,
    events: usize,
)
    requires
        call_ensures(QueryEventsParams::rows, (query,), rows),
        call_ensures(UserTimelineParams::rows, (timeline,), events),
    ensures
        match query.limit {
            Some(n) => rows == if n < 10_000 {
                n
            } else {
                10_000
            },
            None => rows == 1000,
        },
        match timeline.limit {
            Some(n) => events == if n < 10_000 {
                n
            } else {
                10_000
            },
            None => events == 200,
        },
{
}

} // verus!
