//! What is asked of the query engine: the columns, the views over the stored
//! tiers, row limits and SQL literals.
use vstd::prelude::*;

use crate::text::{chars_of, copy_text, opt_text, same_text, texts};

verus! {

/// The most rows that a query returns.
pub const MAX_ROWS: usize = 10_000;

/// How long a query may take, in seconds.
pub const QUERY_TIMEOUT_SECS: u64 = 30;

/// The columns of the `events` table.
pub const COLUMNS: [&'static str; 11] = [
    "product",
    "event",
    "occurred_at",
    "received_at",
    "anonymous_id",
    "user_id",
    "session_id",
    "source",
    "properties",
    "context",
    "date",
];

/// The names of the columns of the `events` table.
pub open spec fn column_names() -> Seq<Seq<char>> {
    Seq::new(11, |i: int| COLUMNS@[i]@)
}

/// The columns that a data file holds itself.
pub open spec fn data_column_names() -> Seq<Seq<char>> {
    seq![
        "event"@,
        "occurred_at"@,
        "received_at"@,
        "anonymous_id"@,
        "user_id"@,
        "session_id"@,
        "source"@,
        "properties"@,
        "context"@,
    ]
}

/// The columns that a data file holds itself.
pub fn data_fields() -> (r: Vec<String>)
    ensures
        texts(r@) == data_column_names(),
{
    let mut r: Vec<String> = Vec::new();
    r.push(copy_text("event"));
    r.push(copy_text("occurred_at"));
    r.push(copy_text("received_at"));
    r.push(copy_text("anonymous_id"));
    r.push(copy_text("user_id"));
    r.push(copy_text("session_id"));
    r.push(copy_text("source"));
    r.push(copy_text("properties"));
    r.push(copy_text("context"));
    proof {
        assert(texts(r@) =~= data_column_names());
    }
    r
}

/// The columns of a Parquet data file. Those of the partition, product and
/// date, stand in the names of its directories.
pub fn parquet_file_schema() -> (r: Vec<String>)
    ensures
        texts(r@) == data_column_names(),
{
    data_fields()
}

/// The columns of a line of the log: all of the table's, in its order.
pub fn wal_schema() -> (r: Vec<String>)
    ensures
        texts(r@) == column_names(),
        texts(r@) == seq!["product"@] + data_column_names() + seq!["date"@],
{
    let mut r: Vec<String> = Vec::new();
    r.push(copy_text("product"));
    let mut data = data_fields();
    let ghost names = texts(data@);
    r.append(&mut data);
    r.push(copy_text("date"));
    proof {
        assert(texts(r@) =~= seq!["product"@] + names + seq!["date"@]);
        assert(texts(r@) =~= column_names());
    }
    r
}

/// Texts one after another, with a separator between them.
pub open spec fn joined(pieces: Seq<Seq<char>>, sep: Seq<char>) -> Seq<char>
    decreases pieces.len(),
{
    if pieces.len() == 0 {
        Seq::empty()
    } else if pieces.len() == 1 {
        pieces[0]
    } else {
        joined(pieces.drop_last(), sep) + sep + pieces.last()
    }
}

/// Texts one after another, with a separator between them.
pub fn join(pieces: &[String], sep: &str) -> (r: String)
    ensures
        r@ == joined(texts(pieces@), sep@),
{
    let mut r = String::new();
    let mut i: usize = 0;
    let ghost all = texts(pieces@);
    proof {
        assert(all.take(0) =~= Seq::<Seq<char>>::empty());
    }
    while i < pieces.len()
        invariant
            i <= pieces.len(),
            all == texts(pieces@),
            r@ == joined(all.take(i as int), sep@),
        decreases pieces.len() - i,
    {
        proof {
            assert(all.take(i + 1).drop_last() =~= all.take(i as int));
            assert(all.take(i + 1).last() == all[i as int]);
        }
        if i > 0 {
            r.append(sep);
            r.append(pieces[i].as_str());
        } else {
            r = copy_text(pieces[i].as_str());
        }
        i += 1;
    }
    proof {
        assert(all.take(i as int) =~= all);
    }
    r
}

/// How many rows a query returns at most.
pub open spec fn row_limit(limit: Option<usize>, default: usize) -> int {
    let n = match limit {
        Some(n) => n,
        None => default,
    };
    if n < MAX_ROWS {
        n as int
    } else {
        MAX_ROWS as int
    }
}

/// How many rows a query returns at most: what is asked for, or the default,
/// but never more than `MAX_ROWS`.
pub fn query_limit(limit: Option<usize>, default: usize) -> (r: usize)
    ensures
        r == row_limit(limit, default),
        r <= MAX_ROWS,
{
    let n: usize = match limit {
        Some(n) => n,
        None => default,
    };
    if n < MAX_ROWS {
        n
    } else {
        MAX_ROWS
    }
}

/// The statement that selects the table's columns from one tier.
pub open spec fn tier_select(tier: Seq<char>) -> Seq<char> {
    "SELECT "@ + joined(column_names(), ", "@) + " FROM "@ + tier
}

fn select_from(tier: &str) -> (r: String)
    ensures
        r@ == tier_select(tier@),
{
    let columns = wal_schema();
    let mut r = copy_text("SELECT ");
    r.append(join(columns.as_slice(), ", ").as_str());
    r.append(" FROM ");
    r.append(tier);
    r
}

/// The statement that makes the `events` view over the tiers that hold files;
/// there is none where neither does, and the table is empty.
pub open spec fn events_view(parquet: bool, wal: bool) -> Option<Seq<char>> {
    let create = "CREATE VIEW events AS "@;
    if parquet && wal {
        Some(
            create + (tier_select("events_parquet"@) + " UNION ALL "@ + tier_select("events_wal"@)),
        )
    } else if parquet {
        Some(create + tier_select("events_parquet"@))
    } else if wal {
        Some(create + tier_select("events_wal"@))
    } else {
        None
    }
}

/// The statement that makes the `events` view over the tiers that hold files.
pub fn events_view_sql(parquet: bool, wal: bool) -> (r: Option<String>)
    ensures
        opt_text(r) == events_view(parquet, wal),
{
    let mut selects: Vec<String> = Vec::new();
    if parquet {
        selects.push(select_from("events_parquet"));
    }
    if wal {
        selects.push(select_from("events_wal"));
    }
    if selects.len() == 0 {
        return None;
    }
    let mut r = copy_text("CREATE VIEW events AS ");
    r.append(join(selects.as_slice(), " UNION ALL ").as_str());
    proof {
        reveal_with_fuel(joined, 3);
        let all = texts(selects@);
        if parquet && wal {
            assert(all.drop_last() =~= seq![tier_select("events_parquet"@)]);
        }
    }
    Some(r)
}

/// The view that ties a visitor's anonymous id to the account it became.
pub const IDENTITY_LINKS_SQL: &'static str =
    "CREATE VIEW identity_links AS SELECT product, anonymous_id, user_id, min(occurred_at) AS linked_at FROM events WHERE event = '$identify' AND anonymous_id <> '' AND user_id <> '' GROUP BY product, anonymous_id, user_id";

/// The URL of a directory.
pub fn dir_url(path: &str) -> (r: String)
    ensures
        r@ == "file://"@ + path@ + "/"@,
{
    let mut r = copy_text("file://");
    r.append(path);
    r.append("/");
    r
}

/// A text with every quote doubled.
pub open spec fn doubled(s: Seq<char>) -> Seq<char>
    decreases s.len(),
{
    if s.len() == 0 {
        Seq::empty()
    } else if s[0] == '\'' {
        seq!['\'', '\''] + doubled(s.drop_first())
    } else {
        seq![s[0]] + doubled(s.drop_first())
    }
}

/// A text as an SQL string literal.
pub open spec fn quoted(s: Seq<char>) -> Seq<char> {
    seq!['\''] + doubled(s) + seq!['\'']
}

/// A text as an SQL string literal.
pub fn sql_quote(s: &str) -> (r: String)
    ensures
        r@ == quoted(s@),
{
    let x = chars_of(s);
    let mut r = String::new();
    r.push('\'');
    let mut i: usize = 0;
    proof {
        assert(s@.skip(0) =~= s@);
        assert(r@ =~= seq!['\'']);
    }
    while i < x.len()
        invariant
            i <= x.len(),
            x@ == s@,
            r@ + doubled(s@.skip(i as int)) == seq!['\''] + doubled(s@),
        decreases x.len() - i,
    {
        let ghost before = r@;
        let ghost rest = s@.skip(i as int);
        proof {
            assert(rest.drop_first() =~= s@.skip(i + 1));
        }
        if x[i] == '\'' {
            r.push('\'');
            r.push('\'');
            proof {
                assert(before + doubled(rest) =~= r@ + doubled(s@.skip(i + 1)));
            }
        } else {
            r.push(x[i]);
            proof {
                assert(before + doubled(rest) =~= r@ + doubled(s@.skip(i + 1)));
            }
        }
        i += 1;
    }
    proof {
        assert(s@.skip(i as int) =~= Seq::<char>::empty());
        assert(r@ + Seq::<char>::empty() =~= r@);
    }
    r.push('\'');
    proof {
        assert(r@ =~= quoted(s@));
    }
    r
}

/// What SQL reads after the quote that opens a string literal: the literal's
/// value, in which two quotes stand for one, and what follows the quote that
/// closes it. `None` where none closes it.
pub open spec fn literal_rest(s: Seq<char>) -> Option<(Seq<char>, Seq<char>)>
    decreases s.len(),
{
    if s.len() == 0 {
        None
    } else if s[0] != '\'' {
        match literal_rest(s.drop_first()) {
            Some(p) => Some((seq![s[0]] + p.0, p.1)),
            None => None,
        }
    } else if s.len() > 1 && s[1] == '\'' {
        match literal_rest(s.skip(2)) {
            Some(p) => Some((seq!['\''] + p.0, p.1)),
            None => None,
        }
    } else {
        Some((Seq::empty(), s.drop_first()))
    }
}

/// What SQL reads at a string literal: its value and what follows it.
pub open spec fn read_literal(s: Seq<char>) -> Option<(Seq<char>, Seq<char>)> {
    if s.len() > 0 && s[0] == '\'' {
        literal_rest(s.drop_first())
    } else {
        None
    }
}

/// Whatever a text holds, SQL reads its quoted form as one literal with the
/// text as its value, and goes on right after it: no text can end the literal
/// early.
pub proof fn law_quoted_text_is_one_literal(s: Seq<char>, rest: Seq<char>)
    requires
        rest.len() == 0 || rest[0] != '\'',
    ensures
        read_literal(quoted(s) + rest) == Some((s, rest)),
{
    assert((quoted(s) + rest).drop_first() =~= doubled(s) + seq!['\''] + rest);
    lemma_literal_rest(s, rest);
}

proof fn lemma_literal_rest(s: Seq<char>, rest: Seq<char>)
    requires
        rest.len() == 0 || rest[0] != '\'',
    ensures
        literal_rest(doubled(s) + seq!['\''] + rest) == Some((s, rest)),
    decreases s.len(),
{
    let all = doubled(s) + seq!['\''] + rest;
    if s.len() == 0 {
        assert(all.drop_first() =~= rest);
        assert(s =~= Seq::<char>::empty());
    } else {
        lemma_literal_rest(s.drop_first(), rest);
        let tail = doubled(s.drop_first()) + seq!['\''] + rest;
        assert(s =~= seq![s[0]] + s.drop_first());
        if s[0] == '\'' {
            assert(all.skip(2) =~= tail);
        } else {
            assert(all.drop_first() =~= tail);
        }
    }
}

/// What stands in a directory: a file, with its name's extension and its
/// length where they are known, or a directory, with what stands in it.
pub enum Node {
    File { ext: Option<String>, len: Option<u64> },
    Dir { nodes: Vec<Node> },
}

/// Whether a node is, or a directory holds, a file with the extension that is
/// not empty.
pub open spec fn holds_file(node: Node, ext: Seq<char>) -> bool
    decreases node,
{
    match node {
        Node::File { ext: e, len } => opt_text(e) == Some(ext) && (len matches Some(n)
            && n > 0),
        Node::Dir { nodes } => exists|i: int|
            0 <= i < nodes@.len() && holds_file(#[trigger] nodes@[i], ext),
    }
}

/// Whether a file of the extension that is not empty stands among nodes, at
/// any depth.
pub open spec fn has_file(nodes: Seq<Node>, ext: Seq<char>) -> bool {
    exists|i: int| 0 <= i < nodes.len() && holds_file(#[trigger] nodes[i], ext)
}

/// Whether there is a file with the extension that is not empty, at any
/// depth.
pub fn has_files_with_ext(nodes: &Vec<Node>, ext: &str) -> (r: bool)
    ensures
        r == has_file(nodes@, ext@),
    decreases nodes,
{
    let mut i: usize = 0;
    while i < nodes.len()
        invariant
            i <= nodes.len(),
            forall|j: int| 0 <= j < i ==> !holds_file(#[trigger] nodes@[j], ext@),
        decreases nodes.len() - i,
    {
        let found: bool = match &nodes[i] {
            Node::File { ext: e, len } => {
                let named: bool = match e {
                    Some(e) => same_text(e.as_str(), ext),
                    None => false,
                };
                let full: bool = match len {
                    Some(n) => *n > 0,
                    None => false,
                };
                named && full
            },
            Node::Dir { nodes: inner } => has_files_with_ext(inner, ext),
        };
        if found {
            proof {
                assert(holds_file(nodes@[i as int], ext@));
            }
            return true;
        }
        i += 1;
    }
    false
}

/// The statements that make the views of a query, in order: that of `events`,
/// where a tier holds files, then that of `identity_links`.
pub open spec fn view_statements(parquet: bool, wal: bool) -> Seq<Seq<char>> {
    match events_view(parquet, wal) {
        Some(events) => seq![events, IDENTITY_LINKS_SQL@],
        None => seq![IDENTITY_LINKS_SQL@],
    }
}

/// The statements that make the views of a query, in order.
pub fn views(parquet: bool, wal: bool) -> (r: Vec<String>)
    ensures
        texts(r@) == view_statements(parquet, wal),
{
    let mut r: Vec<String> = Vec::new();
    match events_view_sql(parquet, wal) {
        Some(events) => {
            r.push(events);
        },
        None => {},
    }
    r.push(copy_text(IDENTITY_LINKS_SQL));
    proof {
        assert(texts(r@) =~= view_statements(parquet, wal));
    }
    r
}

/// The tables that a query is made over: where the files of each tier are, for
/// the tiers that have any, whether `events` has to be an empty table because
/// none has, and the statements that make the views, in order.
pub struct Catalog {
    pub parquet: Option<String>,
    pub wal: Option<String>,
    pub empty_events: bool,
    pub views: Vec<String>,
}

/// The URL of the directory of a tier that holds files.
pub open spec fn tier_url(dir: Seq<char>, present: bool) -> Option<Seq<char>> {
    if present {
        Some("file://"@ + dir + "/"@)
    } else {
        None
    }
}

/// The tables that a query is made over, given what stands in the directories
/// of the partitions and of the log.
pub fn catalog(
    events_dir: &str,
    events: &Vec<Node>,
    wal_dir: &str,
    wal: &Vec<Node>,
) -> (r: Catalog)
    ensures
        ({
            let in_parquet = has_file(events@, "parquet"@);
            let in_wal = has_file(wal@, "ndjson"@);
            &&& opt_text(r.parquet) == tier_url(events_dir@, in_parquet)
            &&& opt_text(r.wal) == tier_url(wal_dir@, in_wal)
            &&& r.empty_events == (!in_parquet && !in_wal)
            &&& texts(r.views@) == view_statements(in_parquet, in_wal)
        }),
{
    let in_parquet: bool = has_files_with_ext(events, "parquet");
    let in_wal: bool = has_files_with_ext(wal, "ndjson");
    let parquet: Option<String> = if in_parquet {
        Some(dir_url(events_dir))
    } else {
        None
    };
    let wal: Option<String> = if in_wal {
        Some(dir_url(wal_dir))
    } else {
        None
    };
    Catalog {
        parquet,
        wal,
        empty_events: !in_parquet && !in_wal,
        views: views(in_parquet, in_wal),
    }
}

/// Joined texts stand one after another, with the separator before each but
/// the first.
pub proof fn law_joined_texts_stand_in_order(
    pieces: Seq<Seq<char>>,
    last: Seq<char>,
    sep: Seq<char>,
)
    ensures
        joined(Seq::empty(), sep).len() == 0,
        joined(seq![last], sep) == last,
        pieces.len() > 0 ==> joined(pieces.push(last), sep) == joined(pieces, sep) + sep + last,
{
    assert(pieces.push(last).drop_last() =~= pieces);
}

/// A query returns as many rows as it asks for, or the default, as long as
/// these are no more than ten thousand, and ten thousand otherwise; and it takes
/// half a minute at most.
pub proof fn law_query_limits_are_kept(n: usize, default: usize)
    ensures
        n <= 10_000 ==> row_limit(Some(n), default) == n,
        n > 10_000 ==> row_limit(Some(n), default) == 10_000,
        default <= 10_000 ==> row_limit(None, default) == default,
        default > 10_000 ==> row_limit(None, default) == 10_000,
        MAX_ROWS == 10_000,
        QUERY_TIMEOUT_SECS == 30,
{
}

/// Doubling leaves every character but the quote as it is, and a literal is
/// that between two quotes.
pub proof fn law_literals_go_character_by_character(a: Seq<char>, b: Seq<char>, c: char)
    ensures
        quoted(a).len() == doubled(a).len() + 2,
        quoted(a)[0] == '\'' && quoted(a).last() == '\'',
        quoted(a).subrange(1, quoted(a).len() - 1) == doubled(a),
        doubled(a + b) == doubled(a) + doubled(b),
        doubled(seq!['\'']) == seq!['\'', '\''],
        c != '\'' ==> doubled(seq![c]) == seq![c],
    decreases a.len(),
{
    reveal_with_fuel(doubled, 2);
    assert(quoted(a).subrange(1, quoted(a).len() - 1) =~= doubled(a));
    assert(seq![c].drop_first() =~= Seq::<char>::empty());
    assert(seq!['\''].drop_first() =~= Seq::<char>::empty());
    assert(doubled(seq!['\'']) =~= seq!['\'', '\'']);
    if c != '\'' {
        assert(doubled(seq![c]) =~= seq![c]);
    }
    if a.len() == 0 {
        assert(a + b =~= b);
        assert(doubled(a) + doubled(b) =~= doubled(b));
    } else {
        law_literals_go_character_by_character(a.drop_first(), b, c);
        assert((a + b).drop_first() =~= a.drop_first() + b);
        assert(doubled(a + b) =~= doubled(a) + doubled(b));
    }
}

/// A tier selects the columns of the table, in their order, from its own
/// table.
pub proof fn law_tiers_select_every_column(tier: Seq<char>)
    ensures
        tier_select(tier) == "SELECT product, event, occurred_at, received_at, anonymous_id, user_id, session_id, source, properties, context, date FROM "@
            + tier,
{
    reveal_strlit("SELECT ");
    reveal_strlit(" FROM ");
    reveal_strlit(", ");
    reveal_strlit("product");
    reveal_strlit("event");
    reveal_strlit("occurred_at");
    reveal_strlit("received_at");
    reveal_strlit("anonymous_id");
    reveal_strlit("user_id");
    reveal_strlit("session_id");
    reveal_strlit("source");
    reveal_strlit("properties");
    reveal_strlit("context");
    reveal_strlit("date");
    reveal_strlit(
        "SELECT product, event, occurred_at, received_at, anonymous_id, user_id, session_id, source, properties, context, date FROM ",
    );
    let names = column_names();
    let sep = ", "@;
    assert(names.take(1) =~= seq![names[0]]);
    assert(names.take(11) =~= names);
    lemma_join_next(names, 1, sep);
    lemma_join_next(names, 2, sep);
    lemma_join_next(names, 3, sep);
    lemma_join_next(names, 4, sep);
    lemma_join_next(names, 5, sep);
    lemma_join_next(names, 6, sep);
    lemma_join_next(names, 7, sep);
    lemma_join_next(names, 8, sep);
    lemma_join_next(names, 9, sep);
    lemma_join_next(names, 10, sep);
    let all = names[0] + sep + names[1] + sep + names[2] + sep + names[3] + sep + names[4] + sep
        + names[5] + sep + names[6] + sep + names[7] + sep + names[8] + sep + names[9] + sep
        + names[10];
    assert(joined(names, sep) == all);
    assert("SELECT "@ + all + " FROM "@
        =~= "SELECT product, event, occurred_at, received_at, anonymous_id, user_id, session_id, source, properties, context, date FROM "@);
}

proof fn lemma_join_next(names: Seq<Seq<char>>, n: int, sep: Seq<char>)
    requires
        1 <= n < names.len(),
    ensures
        joined(names.take(n + 1), sep) == joined(names.take(n), sep) + sep + names[n],
{
    assert(names.take(n + 1).drop_last() =~= names.take(n));
}

/// A file counts exactly if it has the extension and a length that is not
/// zero; a directory counts exactly if something in it does, at any depth; and
/// nodes have a file exactly if one of them counts.
pub proof fn law_files_are_found_at_any_depth(
    ext: Seq<char>,
    own: String,
    len: Option<u64>,
    nodes: Vec<Node>,
    i: int,
)
    ensures
        holds_file(Node::File { ext: Some(own), len }, ext) <==> own@ == ext && (len matches Some(n)
            && n > 0),
        !holds_file(Node::File { ext: None, len }, ext),
        holds_file(Node::Dir { nodes }, ext) <==> has_file(nodes@, ext),
        0 <= i < nodes@.len() && holds_file(nodes@[i], ext) ==> has_file(nodes@, ext),
        has_file(nodes@, ext) ==> exists|j: int|
            0 <= j < nodes@.len() && holds_file(#[trigger] nodes@[j], ext),
{
    lemma_dir_holds(Node::Dir { nodes }, ext);
}

proof fn lemma_dir_holds(node: Node, ext: Seq<char>)
    ensures
        node matches Node::Dir { nodes } ==> (holds_file(node, ext) <==> has_file(nodes@, ext)),
{
    if let Node::Dir { nodes } = node {
        if has_file(nodes@, ext) {
            let i = choose|i: int| 0 <= i < nodes@.len() && holds_file(#[trigger] nodes@[i], ext);
            assert(holds_file(nodes@[i], ext));
        }
        if holds_file(node, ext) {
            assert(exists|i: int| 0 <= i < nodes@.len() && holds_file(#[trigger] nodes@[i], ext));
        }
    }
}

/// Where the files of a tier are is said exactly if it has any.
pub proof fn law_tiers_with_files_have_a_url(dir: Seq<char>)
    ensures
        tier_url(dir, true) == Some("file://"@ + dir + "/"@),
        tier_url(dir, false) is None,
{
}

/// The views stand on the tiers that hold files, on each of them once, and the
/// table of identities comes last.
pub proof fn law_views_cover_the_tiers()
    ensures
        ({
            let parquet = tier_select("events_parquet"@);
            let wal = tier_select("events_wal"@);
            let create = "CREATE VIEW events AS "@;
            &&& view_statements(true, true) == seq![
                create + parquet + " UNION ALL "@ + wal,
                IDENTITY_LINKS_SQL@,
            ]
            &&& view_statements(true, false) == seq![create + parquet, IDENTITY_LINKS_SQL@]
            &&& view_statements(false, true) == seq![create + wal, IDENTITY_LINKS_SQL@]
            &&& view_statements(false, false) == seq![IDENTITY_LINKS_SQL@]
        }),
{
    let parquet = tier_select("events_parquet"@);
    let wal = tier_select("events_wal"@);
    assert("CREATE VIEW events AS "@ + (parquet + " UNION ALL "@ + wal)
        =~= "CREATE VIEW events AS "@ + parquet + " UNION ALL "@ + wal);
}

/// A query is made over exactly the tiers that hold files: where one is, is
/// said exactly if it has a file of its kind that is not empty; the table of
/// events is an empty one exactly if neither has; and the views stand on them.
pub proof fn law_catalogs_have_the_tiers_with_files(
    events_dir: &str,
    events: &Vec<Node>,
    wal_dir: &str,
    wal: &Vec<Node>,
    r: Catalog,
)
    requires
        call_ensures(catalog, (events_dir, events, wal_dir, wal), r),
    ensures
        has_file(events@, "parquet"@) ==> (r.parquet matches Some(url) && url@ == "file://"@
            + events_dir@ + "/"@),
        !has_file(events@, "parquet"@) ==> r.parquet is None,
        has_file(wal@, "ndjson"@) ==> (r.wal matches Some(url) && url@ == "file://"@ + wal_dir@
            + "/"@),
        !has_file(wal@, "ndjson"@) ==> r.wal is None,
        r.empty_events <==> r.parquet is None && r.wal is None,
        texts(r.views@) == view_statements(r.parquet is Some, r.wal is Some),
{
}

/// There is a file exactly if one of the nodes is or holds one.
pub proof fn law_files_are_looked_for(nodes: &Vec<Node>, ext: &str, found: bool)
    requires
        call_ensures(has_files_with_ext, (nodes, ext), found),
    ensures
        found <==> exists|i: int| 0 <= i < nodes@.len() && holds_file(#[trigger] nodes@[i], ext@),
{
}

/// SQL reads a quoted text as the text, with nothing behind it, and the URL of a
/// directory holds its path.
pub proof fn law_literals_and_urls_hold_their_text(
    s: &str,
    literal: String,
    path: &str,
    url: String,
)
    requires
        call_ensures(sql_quote, (s,), literal),
        call_ensures(dir_url, (path,), url),
    ensures
        read_literal(literal@) == Some((s@, Seq::<char>::empty())),
        url@ == "file://"@ + path@ + "/"@,
{
    let none = Seq::<char>::empty();
    law_quoted_text_is_one_literal(s@, none);
    assert(quoted(s@) + none =~= quoted(s@));
}

/// As many rows are returned as are wanted, but never more than ten thousand.
pub proof fn law_wanted_rows_are_returned(limit: Option<usize>, default: usize, rows: usize)
    requires
        call_ensures(query_limit, (limit, default), rows),
    ensures
        ({
            let wanted = match limit {
                Some(n) => n,
                None => default,
            };
            rows == if wanted < 10_000 {
                wanted
            } else {
                10_000
            }
        }),
{
}

/// The log has the columns of the data files with the product before and the
/// date behind them.
pub proof fn law_schemas_have_the_same_columns(
    data: Vec<String>,
    parquet: Vec<String>,
    wal: Vec<String>,
)
    requires
        call_ensures(data_fields, (), data),
        call_ensures(parquet_file_schema, (), parquet),
        call_ensures(wal_schema, (), wal),
    ensures
        texts(parquet@) == texts(data@),
        texts(wal@) == seq!["product"@] + texts(data@) + seq!["date"@],
        texts(data@) == seq![
            "event"@,
            "occurred_at"@,
            "received_at"@,
            "anonymous_id"@,
            "user_id"@,
            "session_id"@,
            "source"@,
            "properties"@,
            "context"@,
        ],
{
}

} // verus!
