//! Ordered conversion funnels: how many users got through the first `k` steps
//! within a window of time.
use vstd::prelude::*;
use vstd::std_specs::iter::IteratorSpec;

use crate::query::{join, joined, law_joined_texts_stand_in_order, quoted, sql_quote};
use crate::text::{copy_text, parse_int, same_text, string_of, trim, u64_text};
use crate::text::{decimal, int_value, law_text_order_is_total, lex_lt, opt_text, texts, trimmed};
use crate::text::{chars_of, contains_text, is_blank, is_space, IntError};
use crate::text::{law_decimal_reads_back, law_numbers_stay_in_range, lemma_decimal_start};
use crate::text::{law_trimming_cuts_white_space_only, law_trimming_finds_the_text};
use crate::time::{before_by_millis, date_of, date_text, day_of, has_plain_year, is_instant};
use crate::time::{law_bare_dates_bound_the_texts, law_rfc3339_texts_sort_by_time, millis_of};
use crate::time::{rfc3339_text, rfc3339_value, Instant};

verus! {

/// One event of a funnel: whose it is, when it happened in milliseconds, and
/// which step it is.
pub struct Row {
    pub user: Seq<char>,
    pub ts: int,
    pub step: int,
}

/// The rows that a sequence of tuples stands for.
pub open spec fn rows_of(items: Seq<(String, i64, usize)>) -> Seq<Row> {
    Seq::new(
        items.len(),
        |i: int| Row { user: items[i].0@, ts: items[i].1 as int, step: items[i].2 as int },
    )
}

/// Whether the rows at the given positions are the steps 0, 1, 2, ... in that
/// order, each within the window of the first.
pub open spec fn is_chain(rows: Seq<Row>, at: Seq<int>, window: int) -> bool {
    &&& at.len() > 0
    &&& forall|i: int| 0 <= i < at.len() ==> 0 <= #[trigger] at[i] < rows.len()
    &&& forall|i: int, j: int| 0 <= i < j < at.len() ==> #[trigger] at[i] < #[trigger] at[j]
    &&& forall|i: int| 0 <= i < at.len() ==> rows[#[trigger] at[i]].step == i
    &&& forall|i: int|
        0 < i < at.len() ==> rows[#[trigger] at[i]].ts - rows[at[0]].ts <= window
}

/// Whether the rows hold a chain of `k` steps.
pub open spec fn reaches(rows: Seq<Row>, k: int, window: int) -> bool {
    exists|at: Seq<int>| #[trigger] is_chain(rows, at, window) && at.len() == k
}

/// Where the run of rows of one user that holds position `i` ends.
pub open spec fn run_end(rows: Seq<Row>, i: int) -> int
    decreases rows.len() - i,
{
    if i + 1 >= rows.len() {
        rows.len() as int
    } else if rows[i + 1].user != rows[i].user {
        i + 1
    } else {
        run_end(rows, i + 1)
    }
}

/// The rows from position `i` to the end of their user's run.
pub open spec fn run_at(rows: Seq<Row>, i: int) -> Seq<Row> {
    rows.subrange(i, run_end(rows, i))
}

/// A run holds its first row, ends within the rows, and belongs to one user.
pub proof fn lemma_run_end(rows: Seq<Row>, i: int)
    requires
        0 <= i < rows.len(),
    ensures
        i < run_end(rows, i) <= rows.len(),
        forall|j: int| i <= j < run_end(rows, i) ==> (#[trigger] rows[j]).user == rows[i].user,
        run_end(rows, i) < rows.len() ==> rows[run_end(rows, i)].user != rows[i].user,
    decreases rows.len() - i,
{
    if i + 1 < rows.len() && rows[i + 1].user == rows[i].user {
        lemma_run_end(rows, i + 1);
    }
}

proof fn lemma_run_end_is(rows: Seq<Row>, i: int, e: int)
    requires
        0 <= i < e <= rows.len(),
        forall|j: int| i <= j < e ==> (#[trigger] rows[j]).user == rows[i].user,
        e < rows.len() ==> rows[e].user != rows[i].user,
    ensures
        run_end(rows, i) == e,
    decreases e - i,
{
    if i + 1 < e {
        assert(rows[i + 1].user == rows[i].user);
        lemma_run_end_is(rows, i + 1, e);
    }
}

/// How many of the runs from position `i` on reach `k` steps.
pub open spec fn runs_reaching(rows: Seq<Row>, i: int, k: int, window: int) -> nat
    decreases rows.len() - i,
    when 0 <= i
{
    if i >= rows.len() {
        0
    } else {
        proof {
            lemma_run_end(rows, i);
        }
        let rest = runs_reaching(rows, run_end(rows, i), k, window);
        if reaches(run_at(rows, i), k, window) {
            rest + 1
        } else {
            rest
        }
    }
}

/// Whether the time from a first step to a later one of the same run stays in
/// 64 bits.
pub open spec fn times_fit(rows: Seq<Row>) -> bool {
    forall|i: int, j: int|
        0 <= i < j < rows.len() && j < run_end(rows, i) && (#[trigger] rows[i]).step == 0
            && (#[trigger] rows[j]).step > 0 ==> i64::MIN <= rows[j].ts - rows[i].ts <= i64::MAX
}

/// `times_fit` under a name that is not unfolded by itself.
#[verifier::opaque]
spec fn times_stay(rows: Seq<Row>) -> bool {
    times_fit(rows)
}

proof fn lemma_in_run(rows: Seq<Row>, i: int, j: int)
    requires
        0 <= i <= j < rows.len(),
        forall|k: int| i <= k <= j ==> (#[trigger] rows[k]).user == rows[i].user,
    ensures
        j < run_end(rows, i),
    decreases j - i,
{
    lemma_run_end(rows, i);
    if i < j {
        assert(rows[i + 1].user == rows[i].user);
        lemma_in_run(rows, i + 1, j);
    }
}

/// The latest first step of a chain of `k` steps, if there is such a chain.
pub open spec fn is_latest_start(rows: Seq<Row>, k: int, window: int, start: Option<i64>) -> bool {
    match start {
        None => !reaches(rows, k, window),
        Some(s) => {
            &&& exists|at: Seq<int>| #[trigger]
                is_chain(rows, at, window) && at.len() == k && rows[at[0]].ts == s
            &&& forall|at: Seq<int>| #[trigger]
                is_chain(rows, at, window) && at.len() == k ==> rows[at[0]].ts <= s
        },
    }
}

/// The time from the latest start to the next step stays in 64 bits.
proof fn lemma_time_fits(rows: Seq<Row>, first: int, pos: int, window: int, start: i64)
    requires
        times_stay(rows),
        0 <= first <= pos < rows.len(),
        forall|j: int| first <= j <= pos ==> (#[trigger] rows[j]).user == rows[first].user,
        rows[pos].step > 0,
        is_latest_start(rows.subrange(first, pos), rows[pos].step, window, Some(start)),
    ensures
        i64::MIN <= rows[pos].ts - start <= i64::MAX,
{
    reveal(times_stay);
    let run = rows.subrange(first, pos);
    let at = choose|at: Seq<int>| #[trigger]
        is_chain(run, at, window) && at.len() == rows[pos].step && run[at[0]].ts == start;
    let i = at[0];
    assert(0 <= i < run.len() && run[i].step == 0);
    let from = first + i;
    assert(run[i] == rows[from]);
    assert(rows[from].user == rows[first].user);
    lemma_in_run(rows, from, pos);
}

/// A chain in the first rows is a chain in all of them.
proof fn lemma_chain_grows(rows: Seq<Row>, row: Row, at: Seq<int>, window: int)
    requires
        is_chain(rows, at, window),
    ensures
        is_chain(rows.push(row), at, window),
        rows.push(row)[at[0]] == rows[at[0]],
{
    let more = rows.push(row);
    assert forall|i: int| 0 <= i < at.len() implies more[#[trigger] at[i]] == rows[at[i]] by {
        assert(0 <= at[i] < rows.len());
    }
}

/// A chain that does not end in the last row stands in the rows before it.
proof fn lemma_chain_shrinks(rows: Seq<Row>, row: Row, at: Seq<int>, window: int)
    requires
        is_chain(rows.push(row), at, window),
        at.last() != rows.len(),
    ensures
        is_chain(rows, at, window),
        rows.push(row)[at[0]] == rows[at[0]],
{
    let more = rows.push(row);
    assert forall|i: int| 0 <= i < at.len() implies 0 <= #[trigger] at[i] < rows.len() by {
        if i < at.len() - 1 {
            assert(at[i] < at[at.len() - 1]);
        }
    }
    assert forall|i: int| 0 <= i < at.len() implies more[#[trigger] at[i]] == rows[at[i]] by {
    }
}

/// The first steps of a chain are a chain.
proof fn lemma_chain_start(rows: Seq<Row>, at: Seq<int>, window: int)
    requires
        is_chain(rows, at, window),
        at.len() > 1,
    ensures
        is_chain(rows, at.drop_last(), window),
{
    let a = at.drop_last();
    assert forall|i: int| 0 <= i < a.len() implies #[trigger] a[i] == at[i] by {
    }
}

/// A row of another step leaves the latest start of `k` steps as it is.
proof fn lemma_other_step(rows: Seq<Row>, row: Row, k: int, window: int, start: Option<i64>)
    requires
        is_latest_start(rows, k, window, start),
        k >= 1,
        row.step != k - 1,
    ensures
        is_latest_start(rows.push(row), k, window, start),
{
    let more = rows.push(row);
    assert forall|at: Seq<int>| #[trigger]
        is_chain(more, at, window) && at.len() == k implies is_chain(rows, at, window)
        && more[at[0]] == rows[at[0]] by {
        assert(more[at[k - 1]].step == k - 1);
        lemma_chain_shrinks(rows, row, at, window);
    }
    match start {
        None => {
            if reaches(more, k, window) {
                let at = choose|at: Seq<int>| #[trigger]
                    is_chain(more, at, window) && at.len() == k;
                assert(is_chain(rows, at, window));
            }
        },
        Some(s) => {
            let at = choose|at: Seq<int>| #[trigger]
                is_chain(rows, at, window) && at.len() == k && rows[at[0]].ts == s;
            lemma_chain_grows(rows, row, at, window);
        },
    }
}

/// A first step starts a chain of its own.
proof fn lemma_first_step(
    rows: Seq<Row>,
    row: Row,
    window: int,
    start: Option<i64>,
    new_start: Option<i64>,
)
    requires
        is_latest_start(rows, 1, window, start),
        row.step == 0,
        new_start matches Some(n) && (match start {
            None => n == row.ts,
            Some(s) => n == if s > row.ts {
                s as int
            } else {
                row.ts
            },
        }),
    ensures
        is_latest_start(rows.push(row), 1, window, new_start),
{
    let more = rows.push(row);
    let own = seq![rows.len() as int];
    assert(is_chain(more, own, window));
    assert(more[own[0]].ts == row.ts);
    match start {
        None => {},
        Some(s) => {
            let at = choose|at: Seq<int>| #[trigger]
                is_chain(rows, at, window) && at.len() == 1 && rows[at[0]].ts == s;
            lemma_chain_grows(rows, row, at, window);
        },
    }
    assert forall|at: Seq<int>| #[trigger]
        is_chain(more, at, window) && at.len() == 1 implies more[at[0]].ts <= new_start->0 by {
        if at.last() != rows.len() {
            lemma_chain_shrinks(rows, row, at, window);
            assert(reaches(rows, 1, window));
        }
    }
}

/// A later step extends the chain whose start is the latest, where it can
/// extend one at all.
proof fn lemma_next_step(
    rows: Seq<Row>,
    row: Row,
    k: int,
    window: int,
    before: Option<i64>,
    start: Option<i64>,
    new_start: Option<i64>,
)
    requires
        k >= 1,
        is_latest_start(rows, k, window, before),
        is_latest_start(rows, k + 1, window, start),
        row.step == k,
        (before is Some && row.ts - before->0 <= window) ==> (new_start matches Some(n) && (
        match start {
            None => n == before->0,
            Some(s) => n == if s > before->0 {
                s
            } else {
                before->0
            },
        })),
        !(before is Some && row.ts - before->0 <= window) ==> new_start == start,
    ensures
        is_latest_start(rows.push(row), k + 1, window, new_start),
{
    let more = rows.push(row);
    let extends = before is Some && row.ts - before->0 <= window;
    if extends {
        let at = choose|at: Seq<int>| #[trigger]
            is_chain(rows, at, window) && at.len() == k && rows[at[0]].ts == before->0;
        let longer = at.push(rows.len() as int);
        lemma_chain_grows(rows, row, at, window);
        assert(is_chain(more, longer, window));
        assert(longer[0] == at[0]);
    }
    if start is Some {
        let at = choose|at: Seq<int>| #[trigger]
            is_chain(rows, at, window) && at.len() == k + 1 && rows[at[0]].ts == start->0;
        lemma_chain_grows(rows, row, at, window);
    }
    assert forall|at: Seq<int>| #[trigger]
        is_chain(more, at, window) && at.len() == k + 1 implies new_start is Some
        && more[at[0]].ts <= new_start->0 by {
        if at.last() != rows.len() {
            lemma_chain_shrinks(rows, row, at, window);
            assert(reaches(rows, k + 1, window));
        } else {
            let head = at.drop_last();
            lemma_chain_start(more, at, window);
            assert(at[k - 1] < at[k]);
            lemma_chain_shrinks(rows, row, head, window);
            assert(head[0] == at[0]);
            assert(reaches(rows, k, window));
            assert(more[at[k]].ts - more[at[0]].ts <= window);
        }
    }
    if new_start is None {
        if reaches(more, k + 1, window) {
            let at = choose|at: Seq<int>| #[trigger]
                is_chain(more, at, window) && at.len() == k + 1;
            assert(false);
        }
    }
}

/// Adds one user to each of the first `level` counts.
pub fn count_user(counts: &mut [u64], level: usize)
    requires
        forall|k: int| 0 <= k < old(counts)@.len() && k < level ==> #[trigger] old(counts)@[k]
            < u64::MAX,
    ensures
        final(counts)@ == Seq::new(
            old(counts)@.len(),
            |k: int|
                if k < level {
                    (old(counts)@[k] + 1) as u64
                } else {
                    old(counts)@[k]
                },
        ),
{
    let ghost before = counts@;
    let mut k: usize = 0;
    while k < level && k < counts.len()
        invariant
            k <= counts@.len(),
            k <= level,
            counts@.len() == before.len(),
            forall|j: int| 0 <= j < before.len() && j < level ==> #[trigger] before[j] < u64::MAX,
            forall|j: int| 0 <= j < k ==> #[trigger] counts@[j] == before[j] + 1,
            forall|j: int| k <= j < before.len() ==> #[trigger] counts@[j] == before[j],
        decreases level - k,
    {
        let c: u64 = counts[k];
        counts[k] = c + 1;
        k += 1;
    }
}

/// What the rows of one user have led to: the latest start of a chain of each
/// length, and the length of the longest.
spec fn is_progress(
    run: Seq<Row>,
    n_steps: int,
    window: int,
    starts: Seq<Option<i64>>,
    level: int,
) -> bool {
    &&& starts.len() == n_steps
    &&& 0 <= level <= n_steps
    &&& forall|k: int|
        0 <= k < n_steps ==> is_latest_start(run, k + 1, window, #[trigger] starts[k])
    &&& forall|k: int| 0 <= k < n_steps ==> ((#[trigger] starts[k]) is Some <==> k < level)
}

/// A user has reached a step exactly if it is below the level.
proof fn lemma_level(
    run: Seq<Row>,
    n_steps: int,
    window: int,
    starts: Seq<Option<i64>>,
    level: int,
    k: int,
)
    requires
        is_progress(run, n_steps, window, starts, level),
        0 <= k < n_steps,
    ensures
        reaches(run, k + 1, window) <==> k < level,
{
    assert(is_latest_start(run, k + 1, window, starts[k]));
    match starts[k] {
        None => {},
        Some(s) => {
            let at = choose|at: Seq<int>| #[trigger]
                is_chain(run, at, window) && at.len() == k + 1 && run[at[0]].ts == s;
            assert(is_chain(run, at, window) && at.len() == k + 1);
        },
    }
}

/// Without rows nothing is reached.
proof fn lemma_no_rows(rows: Seq<Row>, k: int, window: int)
    requires
        rows.len() == 0,
    ensures
        !reaches(rows, k, window),
{
    if reaches(rows, k, window) {
        let at = choose|at: Seq<int>| #[trigger] is_chain(rows, at, window) && at.len() == k;
        assert(is_chain(rows, at, window));
        assert(at.len() > 0);
        let i = at[0];
        assert(i < rows.len());
    }
}

/// When a run is over, its level says what it reached.
proof fn lemma_closed_run(
    rows: Seq<Row>,
    first: int,
    pos: int,
    n_steps: int,
    window: int,
    starts: Seq<Option<i64>>,
    level: int,
    k: int,
)
    requires
        0 <= first <= pos <= rows.len(),
        first < pos ==> run_end(rows, first) == pos,
        is_progress(rows.subrange(first, pos), n_steps, window, starts, level),
        level > 0 ==> first < pos,
        0 <= k < n_steps,
    ensures
        k < level <==> (first < pos && reaches(run_at(rows, first), k + 1, window)),
{
    lemma_level(rows.subrange(first, pos), n_steps, window, starts, level, k);
}

/// One more row of the same user.
proof fn lemma_progress(
    run: Seq<Row>,
    row: Row,
    n_steps: int,
    window: int,
    starts: Seq<Option<i64>>,
    level: int,
    new_starts: Seq<Option<i64>>,
    new_level: int,
)
    requires
        is_progress(run, n_steps, window, starts, level),
        0 <= row.step < n_steps,
        new_starts.len() == n_steps,
        forall|k: int|
            0 <= k < n_steps && k != row.step ==> #[trigger] new_starts[k] == starts[k],
        ({
            let s = row.step;
            let extends = s > 0 && starts[s - 1] is Some && row.ts - starts[s - 1]->0 <= window;
            let start = if s == 0 {
                row.ts
            } else {
                starts[s - 1]->0 as int
            };
            if s == 0 || extends {
                &&& new_starts[s] matches Some(n) && n == (match starts[s] {
                    None => start,
                    Some(old_start) => if old_start > start {
                        old_start as int
                    } else {
                        start
                    },
                })
                &&& new_level == if s + 1 > level {
                    s + 1
                } else {
                    level
                }
            } else {
                new_starts[s] == starts[s] && new_level == level
            }
        }),
    ensures
        is_progress(run.push(row), n_steps, window, new_starts, new_level),
{
    let s = row.step;
    assert forall|k: int| 0 <= k < n_steps implies is_latest_start(
        run.push(row),
        k + 1,
        window,
        #[trigger] new_starts[k],
    ) by {
        assert(is_latest_start(run, k + 1, window, starts[k]));
        if k != s {
            lemma_other_step(run, row, k + 1, window, starts[k]);
        } else if s == 0 {
            lemma_first_step(run, row, window, starts[0], new_starts[0]);
        } else {
            assert(is_latest_start(run, s, window, starts[s - 1]));
            lemma_next_step(run, row, s, window, starts[s - 1], starts[s], new_starts[s]);
        }
    }
    assert forall|k: int| 0 <= k < n_steps implies ((#[trigger] new_starts[k]) is Some <==> k
        < new_level) by {
        assert(starts[k] is Some <==> k < level);
        if s > 0 {
            assert(starts[s - 1] is Some <==> s - 1 < level);
        }
        assert(starts[s] is Some <==> s < level);
    }
}

/// Counts, per step, the users that got at least that far. A user is a run of
/// rows with the same name, and has got through `k` steps if the run holds a
/// chain of `k` of them: rows of the steps in order, each within `window_ms`
/// of the first.
pub fn fold<I: Iterator<Item = (String, i64, usize)>>(
    rows: I,
    n_steps: usize,
    window_ms: i64,
) -> (counts: Vec<u64>)
    requires
        rows.obeys_prophetic_iter_laws(),
        rows.decrease() is Some,
        rows.remaining().len() <= u64::MAX,
        forall|i: int|
            0 <= i < rows.remaining().len() ==> (#[trigger] rows.remaining()[i]).2 < n_steps,
        times_fit(rows_of(rows.remaining())),
    ensures
        counts@.len() == n_steps,
        forall|k: int|
            0 <= k < n_steps ==> #[trigger] counts@[k] == runs_reaching(
                rows_of(rows.remaining()),
                0,
                k + 1,
                window_ms as int,
            ),
{
    let ghost items = rows.remaining();
    let ghost all = rows_of(items);
    let ghost n = n_steps as int;
    let ghost window = window_ms as int;
    let mut rows = rows;
    let mut counts: Vec<u64> = Vec::new();
    let mut starts: Vec<Option<i64>> = Vec::new();
    while counts.len() < n_steps
        invariant
            counts@.len() == starts@.len(),
            counts@.len() <= n_steps,
            forall|k: int| 0 <= k < counts@.len() ==> #[trigger] counts@[k] == 0,
            forall|k: int| 0 <= k < counts@.len() ==> #[trigger] starts@[k] is None,
        decreases n_steps - counts.len(),
    {
        counts.push(0);
        starts.push(None);
    }
    let mut cur_user: Option<String> = None;
    let mut level: usize = 0;
    let ghost mut first: int = 0;
    let ghost mut pos: int = 0;
    proof {
        reveal(times_stay);
        assert(items.skip(0) =~= items);
        assert(all.subrange(0, 0) =~= Seq::<Row>::empty());
        assert forall|k: int| 0 <= k < n implies is_latest_start(
            all.subrange(0, 0),
            k + 1,
            window,
            #[trigger] starts@[k],
        ) by {
            lemma_no_rows(all.subrange(0, 0), k + 1, window);
        }
    }
    loop
        invariant
            rows.obeys_prophetic_iter_laws(),
            rows.decrease() is Some,
            all == rows_of(items),
            n == n_steps,
            window == window_ms,
            items.len() <= u64::MAX,
            forall|i: int| 0 <= i < items.len() ==> (#[trigger] items[i]).2 < n_steps,
            times_stay(all),
            0 <= first <= pos <= items.len(),
            rows.remaining() == items.skip(pos),
            counts@.len() == n_steps,
            cur_user is None ==> pos == 0,
            cur_user matches Some(u) ==> first < pos && all[first].user == u@,
            forall|j: int| first <= j < pos ==> (#[trigger] all[j]).user == all[first].user,
            is_progress(all.subrange(first, pos), n, window, starts@, level as int),
            level > 0 ==> first < pos,
            forall|k: int|
                0 <= k < n ==> #[trigger] counts@[k] + runs_reaching(all, first, k + 1, window)
                    == runs_reaching(all, 0, k + 1, window),
            forall|k: int| 0 <= k < n ==> #[trigger] counts@[k] <= first,
        ensures
            0 <= first <= pos == items.len(),
        decreases rows.decrease()->0,
    {
        match rows.next() {
            None => {
                break;
            },
            Some((user, ts, step)) => {
                let ghost row = all[pos];
                proof {
                    assert(items.skip(pos)[0] == items[pos]);
                    assert(items.skip(pos).drop_first() =~= items.skip(pos + 1));
                    assert(row == (Row { user: user@, ts: ts as int, step: step as int }));
                    assert(items[pos].2 < n_steps);
                }
                let same: bool = match &cur_user {
                    Some(u) => same_text(u.as_str(), user.as_str()),
                    None => false,
                };
                if !same {
                    proof {
                        if cur_user is Some {
                            lemma_run_end_is(all, first, pos);
                        }
                    }
                    let ghost before = counts@;
                    count_user(counts.as_mut_slice(), level);
                    proof {
                        assert forall|k: int| 0 <= k < n implies #[trigger] counts@[k]
                            + runs_reaching(all, pos, k + 1, window) == runs_reaching(
                            all,
                            0,
                            k + 1,
                            window,
                        ) && counts@[k] <= pos by {
                            assert(before[k] + runs_reaching(all, first, k + 1, window)
                                == runs_reaching(all, 0, k + 1, window));
                            lemma_closed_run(all, first, pos, n, window, starts@, level as int, k);
                        }
                    }
                    cur_user = Some(user);
                    let mut j: usize = 0;
                    while j < starts.len()
                        invariant
                            j <= starts@.len(),
                            starts@.len() == n_steps,
                            forall|k: int| 0 <= k < j ==> #[trigger] starts@[k] is None,
                        decreases starts.len() - j,
                    {
                        starts.set(j, None);
                        j += 1;
                    }
                    level = 0;
                    proof {
                        first = pos;
                        let none = all.subrange(first, pos);
                        assert forall|k: int| 0 <= k < n implies is_latest_start(
                            none,
                            k + 1,
                            window,
                            #[trigger] starts@[k],
                        ) by {
                            lemma_no_rows(none, k + 1, window);
                        }
                    }
                }
                let ghost run = all.subrange(first, pos);
                let ghost old_starts = starts@;
                let ghost old_level = level as int;
                if step == 0 {
                    // A later start leaves more of the window for the rest.
                    let start: i64 = match starts[0] {
                        None => ts,
                        Some(s) => if s > ts {
                            s
                        } else {
                            ts
                        },
                    };
                    starts.set(0, Some(start));
                    if level < 1 {
                        level = 1;
                    }
                } else if let Some(start) = starts[step - 1] {
                    proof {
                        assert(is_latest_start(run, step as int, window, old_starts[step - 1]));
                        lemma_time_fits(all, first, pos, window, start);
                    }
                    if ts - start <= window_ms {
                        let kept: i64 = match starts[step] {
                            None => start,
                            Some(s) => if s > start {
                                s
                            } else {
                                start
                            },
                        };
                        starts.set(step, Some(kept));
                        if level < step + 1 {
                            level = step + 1;
                        }
                    }
                }
                proof {
                    lemma_progress(
                        run,
                        row,
                        n,
                        window,
                        old_starts,
                        old_level,
                        starts@,
                        level as int,
                    );
                    assert(all.subrange(first, pos + 1) =~= run.push(row));
                    pos = pos + 1;
                }
            },
        }
    }
    proof {
        if first < pos {
            lemma_run_end_is(all, first, pos);
        }
    }
    let ghost before = counts@;
    count_user(counts.as_mut_slice(), level);
    proof {
        assert forall|k: int| 0 <= k < n implies #[trigger] counts@[k] == runs_reaching(
            all,
            0,
            k + 1,
            window,
        ) by {
            assert(before[k] + runs_reaching(all, first, k + 1, window) == runs_reaching(
                all,
                0,
                k + 1,
                window,
            ));
            lemma_closed_run(all, first, pos, n, window, starts@, level as int, k);
            assert(runs_reaching(all, pos, k + 1, window) == 0);
        }
    }
    counts
}

/// Whether the rows are ordered by the name of their user.
pub open spec fn sorted_by_user(rows: Seq<Row>) -> bool {
    forall|i: int, j: int|
        0 <= i < j < rows.len() ==> (#[trigger] rows[i]).user == (#[trigger] rows[j]).user
            || lex_lt(rows[i].user, rows[j].user)
}

/// Whether the rows of a user, wherever they stand, hold a chain of `k` steps.
pub open spec fn user_reaches(rows: Seq<Row>, user: Seq<char>, k: int, window: int) -> bool {
    exists|at: Seq<int>| #[trigger]
        is_chain(rows, at, window) && at.len() == k && all_of_user(rows, at, user)
}

/// Whether the rows at the given positions all belong to a user.
pub open spec fn all_of_user(rows: Seq<Row>, at: Seq<int>, user: Seq<char>) -> bool {
    forall|i: int| 0 <= i < at.len() ==> rows[#[trigger] at[i]].user == user
}

/// The users that get through `k` steps.
pub open spec fn users_reaching(rows: Seq<Row>, k: int, window: int) -> Set<Seq<char>> {
    Set::new(|user: Seq<char>| user_reaches(rows, user, k, window))
}

/// On rows that are sorted by user a count is a number of users, each counted
/// once: as many as have a chain of that many steps among their rows.
pub proof fn law_counts_are_unique_users(rows: Seq<Row>, k: int, window: int)
    requires
        sorted_by_user(rows),
        k >= 1,
    ensures
        users_reaching(rows, k, window).finite(),
        runs_reaching(rows, 0, k, window) == users_reaching(rows, k, window).len(),
{
    lemma_users_from(rows, 0, k, window);
    assert forall|user: Seq<char>| user_reaches_from(rows, 0, user, k, window) <==> user_reaches(
        rows,
        user,
        k,
        window,
    ) by {
        if user_reaches(rows, user, k, window) {
            let at = choose|at: Seq<int>| #[trigger]
                is_chain(rows, at, window) && at.len() == k && all_of_user(rows, at, user);
            assert(is_chain(rows, at, window));
            assert(at[0] >= 0);
        }
    }
    assert(users_reaching_from(rows, 0, k, window) =~= users_reaching(rows, k, window));
}

/// No step is reached by more users than the step before it.
pub proof fn law_counts_never_grow(rows: Seq<Row>, i: int, k: int, window: int)
    requires
        0 <= i,
        k >= 1,
    ensures
        runs_reaching(rows, i, k + 1, window) <= runs_reaching(rows, i, k, window),
    decreases rows.len() - i,
{
    if i < rows.len() {
        lemma_run_end(rows, i);
        law_counts_never_grow(rows, run_end(rows, i), k, window);
        let run = run_at(rows, i);
        if reaches(run, k + 1, window) {
            let at = choose|at: Seq<int>| #[trigger]
                is_chain(run, at, window) && at.len() == k + 1;
            lemma_chain_start(run, at, window);
            assert(at.drop_last().len() == k);
        }
    }
}

/// A wider window never counts fewer users.
pub proof fn law_wider_window_counts_no_fewer(
    rows: Seq<Row>,
    i: int,
    k: int,
    window: int,
    wider: int,
)
    requires
        0 <= i,
        window <= wider,
    ensures
        runs_reaching(rows, i, k, window) <= runs_reaching(rows, i, k, wider),
    decreases rows.len() - i,
{
    if i < rows.len() {
        lemma_run_end(rows, i);
        law_wider_window_counts_no_fewer(rows, run_end(rows, i), k, window, wider);
        let run = run_at(rows, i);
        if reaches(run, k, window) {
            let at = choose|at: Seq<int>| #[trigger] is_chain(run, at, window) && at.len() == k;
            assert(is_chain(run, at, wider));
        }
    }
}

spec fn user_reaches_from(
    rows: Seq<Row>,
    i: int,
    user: Seq<char>,
    k: int,
    window: int,
) -> bool {
    exists|at: Seq<int>| #[trigger]
        is_chain(rows, at, window) && at.len() == k && at[0] >= i && all_of_user(rows, at, user)
}

spec fn users_reaching_from(rows: Seq<Row>, i: int, k: int, window: int) -> Set<Seq<char>> {
    Set::new(|user: Seq<char>| user_reaches_from(rows, i, user, k, window))
}

/// A user whose run is over does not come back.
proof fn lemma_grouped(rows: Seq<Row>, i: int, e: int, j: int)
    requires
        sorted_by_user(rows),
        0 <= i < e <= j < rows.len(),
        rows[e].user != rows[i].user,
    ensures
        rows[j].user != rows[i].user,
{
    assert(lex_lt(rows[i].user, rows[e].user));
    if rows[j].user == rows[i].user {
        assert(e < j);
        assert(lex_lt(rows[e].user, rows[j].user));
        law_text_order_is_total(rows[i].user, rows[e].user);
    }
}

/// A chain in a part of the rows, moved by where the part starts.
spec fn moved(at: Seq<int>, by: int) -> Seq<int> {
    Seq::new(at.len(), |j: int| at[j] + by)
}

proof fn lemma_chain_moves(rows: Seq<Row>, i: int, e: int, at: Seq<int>, window: int)
    requires
        0 <= i <= e <= rows.len(),
        is_chain(rows.subrange(i, e), at, window),
    ensures
        is_chain(rows, moved(at, i), window),
{
    let part = rows.subrange(i, e);
    let to = moved(at, i);
    assert forall|j: int| 0 <= j < at.len() implies rows[#[trigger] to[j]] == part[at[j]] && 0
        <= to[j] < rows.len() by {
        assert(0 <= at[j] < part.len());
    }
    assert forall|a: int, b: int|
        0 <= a < b < to.len() implies #[trigger] to[a] < #[trigger] to[b] by {
        assert(at[a] < at[b]);
    }
    assert forall|j: int| 0 < j < to.len() implies rows[#[trigger] to[j]].ts - rows[to[0]].ts
        <= window by {
        assert(part[at[j]].ts - part[at[0]].ts <= window);
    }
}

proof fn lemma_chain_moves_back(rows: Seq<Row>, i: int, e: int, at: Seq<int>, window: int)
    requires
        0 <= i <= e <= rows.len(),
        is_chain(rows, at, window),
        forall|j: int| 0 <= j < at.len() ==> i <= #[trigger] at[j] < e,
    ensures
        is_chain(rows.subrange(i, e), moved(at, -i), window),
{
    let part = rows.subrange(i, e);
    let to = moved(at, -i);
    assert forall|j: int| 0 <= j < at.len() implies part[#[trigger] to[j]] == rows[at[j]] && 0
        <= to[j] < part.len() by {
        assert(i <= at[j] < e);
    }
    assert forall|a: int, b: int|
        0 <= a < b < to.len() implies #[trigger] to[a] < #[trigger] to[b] by {
        assert(at[a] < at[b]);
    }
    assert forall|j: int| 0 < j < to.len() implies part[#[trigger] to[j]].ts - part[to[0]].ts
        <= window by {
        assert(rows[at[j]].ts - rows[at[0]].ts <= window);
    }
}

/// The run that starts the rows adds its own user, and no other, to those
/// that the rows after it add.
proof fn lemma_first_run(rows: Seq<Row>, i: int, user: Seq<char>, k: int, window: int)
    requires
        sorted_by_user(rows),
        0 <= i < rows.len(),
        k >= 1,
    ensures
        user == rows[i].user ==> !user_reaches_from(rows, run_end(rows, i), user, k, window),
        user_reaches_from(rows, i, user, k, window) <==> (user_reaches_from(
            rows,
            run_end(rows, i),
            user,
            k,
            window,
        ) || (user == rows[i].user && reaches(run_at(rows, i), k, window))),
{
    lemma_run_end(rows, i);
    let e = run_end(rows, i);
    let own = rows[i].user;
    if user_reaches_from(rows, e, user, k, window) {
        let at = choose|at: Seq<int>| #[trigger]
            is_chain(rows, at, window) && at.len() == k && at[0] >= e && all_of_user(
                rows,
                at,
                user,
            );
        assert(is_chain(rows, at, window));
        assert(0 <= at[0] < rows.len());
        assert(rows[at[0]].user == user);
        if user == own {
            lemma_grouped(rows, i, e, at[0]);
        }
        assert(at[0] >= i);
    }
    if user == own && reaches(run_at(rows, i), k, window) {
        let at = choose|at: Seq<int>| #[trigger]
            is_chain(run_at(rows, i), at, window) && at.len() == k;
        lemma_chain_moves(rows, i, e, at, window);
        let to = moved(at, i);
        assert forall|j: int| 0 <= j < to.len() implies rows[#[trigger] to[j]].user == user by {
            assert(0 <= at[j] < run_at(rows, i).len());
        }
        assert(0 <= at[0]);
        assert(to[0] >= i);
        assert(is_chain(rows, to, window) && to.len() == k && to[0] >= i && all_of_user(
            rows,
            to,
            user,
        ));
    }
    if user_reaches_from(rows, i, user, k, window) {
        let at = choose|at: Seq<int>| #[trigger]
            is_chain(rows, at, window) && at.len() == k && at[0] >= i && all_of_user(
                rows,
                at,
                user,
            );
        assert(is_chain(rows, at, window));
        assert(0 <= at[0] < rows.len());
        assert(rows[at[0]].user == user);
        if user == own {
            assert forall|j: int| 0 <= j < at.len() implies i <= #[trigger] at[j] < e by {
                assert(0 <= at[j] < rows.len());
                assert(rows[at[j]].user == own);
                if j > 0 {
                    assert(at[0] < at[j]);
                }
                if at[j] >= e {
                    lemma_grouped(rows, i, e, at[j]);
                }
            }
            lemma_chain_moves_back(rows, i, e, at, window);
            assert(is_chain(run_at(rows, i), moved(at, -i), window) && moved(at, -i).len() == k);
        } else {
            assert(at[0] >= e);
        }
    }
}

proof fn lemma_users_from(rows: Seq<Row>, i: int, k: int, window: int)
    requires
        sorted_by_user(rows),
        0 <= i <= rows.len(),
        k >= 1,
    ensures
        users_reaching_from(rows, i, k, window).finite(),
        runs_reaching(rows, i, k, window) == users_reaching_from(rows, i, k, window).len(),
    decreases rows.len() - i,
{
    let here = users_reaching_from(rows, i, k, window);
    if i == rows.len() {
        assert forall|user: Seq<char>| !user_reaches_from(rows, i, user, k, window) by {
            if user_reaches_from(rows, i, user, k, window) {
                let at = choose|at: Seq<int>| #[trigger]
                    is_chain(rows, at, window) && at.len() == k && at[0] >= i && all_of_user(
                        rows,
                        at,
                        user,
                    );
                assert(is_chain(rows, at, window));
                let first = at[0];
                assert(first < rows.len());
            }
        }
        assert(here =~= Set::<Seq<char>>::empty());
    } else {
        lemma_run_end(rows, i);
        let e = run_end(rows, i);
        lemma_users_from(rows, e, k, window);
        let after = users_reaching_from(rows, e, k, window);
        assert forall|user: Seq<char>| here.contains(user) <==> (after.contains(user) || (user
            == rows[i].user && reaches(run_at(rows, i), k, window))) by {
            lemma_first_run(rows, i, user, k, window);
        }
        lemma_first_run(rows, i, rows[i].user, k, window);
        if reaches(run_at(rows, i), k, window) {
            assert(here =~= after.insert(rows[i].user));
        } else {
            assert(here =~= after);
        }
    }
}

/// The time within which a chain of steps has to be complete.
#[derive(Debug, Clone, Copy, PartialEq, Eq, Structural)]
pub struct Window {
    millis: u128,
}

impl Window {
    /// How many milliseconds the window is long.
    pub closed spec fn millis(self) -> int {
        self.millis as int
    }

    /// A window of so many seconds.
    pub fn from_secs(secs: u64) -> (w: Window)
        ensures
            w.millis() == secs * 1000,
    {
        Window { millis: secs as u128 * 1000 }
    }

    /// A window of so many milliseconds.
    pub fn from_millis(millis: u64) -> (w: Window)
        ensures
            w.millis() == millis,
    {
        Window { millis: millis as u128 }
    }

    /// How many milliseconds the window is long.
    pub fn as_millis(&self) -> (n: u128)
        ensures
            n == self.millis(),
    {
        self.millis
    }
}

/// How many seconds a unit of a window stands for.
pub open spec fn unit_secs(unit: char) -> Option<int> {
    if unit == 'd' {
        Some(86_400)
    } else if unit == 'h' {
        Some(3_600)
    } else if unit == 'm' {
        Some(60)
    } else if unit == 's' {
        Some(1)
    } else {
        None
    }
}

/// The number in front of the last character of a text.
pub open spec fn window_number(t: Seq<char>) -> Option<int> {
    if t.len() == 0 {
        None
    } else {
        match int_value(t.drop_last(), 0, u64::MAX as int) {
            Ok(n) => Some(n),
            Err(_) => None,
        }
    }
}

/// The seconds of a window written as a number and a unit, such as `7d`,
/// `24h`, `90m` or `3600s`, or what is wrong with it.
pub open spec fn window_secs(s: Seq<char>) -> Result<int, Seq<char>> {
    let t = trimmed(s);
    match window_number(t) {
        None => Err("invalid window '"@ + t + "': use e.g. 7d, 24h, 90m, 3600s"@),
        Some(n) => match unit_secs(t.last()) {
            None => Err("invalid window unit '"@ + seq![t.last()] + "': use d/h/m/s"@),
            Some(u) => if n * u == 0 {
                Err("window must be positive"@)
            } else {
                Ok(n * u)
            },
        },
    }
}

/// Whether a text can be taken apart as a window: its last character is one
/// byte long, and the seconds stay in 64 bits.
pub open spec fn window_fits(s: Seq<char>) -> bool {
    let t = trimmed(s);
    &&& t.len() > 0 ==> (t.last() as int) < 128
    &&& window_secs(s) matches Ok(n) ==> n <= u64::MAX
}

fn window_parts(s: &str) -> (r: (String, Option<u64>, Option<char>))
    ensures
        r.0@ == trimmed(s@),
        match r.1 {
            Some(n) => window_number(r.0@) == Some(n as int),
            None => window_number(r.0@) is None,
        },
        r.2 matches Some(c) ==> r.0@.len() > 0 && c == r.0@.last(),
        r.2 is None ==> r.0@.len() == 0,
{
    let t = trim(s);
    let x = chars_of(t.as_str());
    if x.len() == 0 {
        return (t, None, None);
    }
    let last: usize = x.len() - 1;
    let mut front: Vec<char> = Vec::new();
    let mut i: usize = 0;
    while i < last
        invariant
            i <= last,
            last == x.len() - 1,
            front@ == x@.take(i as int),
        decreases last - i,
    {
        front.push(x[i]);
        i += 1;
    }
    proof {
        assert(front@ =~= t@.drop_last());
    }
    let n: Option<u64> = match parse_int(
        string_of(front.as_slice()).as_str(),
        0,
        u64::MAX as i128,
    ) {
        Ok(n) => Some(n as u64),
        Err(_) => None,
    };
    (t, n, Some(x[last]))
}

fn unit_length(unit: char) -> (r: Option<u64>)
    ensures
        match r {
            Some(u) => unit_secs(unit) == Some(u as int) && 1 <= u <= 86_400,
            None => unit_secs(unit) is None,
        },
{
    if unit == 'd' {
        Some(86_400)
    } else if unit == 'h' {
        Some(3_600)
    } else if unit == 'm' {
        Some(60)
    } else if unit == 's' {
        Some(1)
    } else {
        None
    }
}

fn is_one_byte(c: char) -> (r: bool)
    ensures
        r == ((c as int) < 128),
{
    let code: u32 = c as u32;
    code < 128
}

/// Whether `parse_window` can take a text.
pub fn can_parse_window(s: &str) -> (r: bool)
    ensures
        r == window_fits(s@),
{
    let (t, n, unit) = window_parts(s);
    match unit {
        None => true,
        Some(c) => {
            if !is_one_byte(c) {
                return false;
            }
            match (n, unit_length(c)) {
                (Some(n), Some(u)) => {
                    proof {
                        assert(0 <= n * u <= u64::MAX * 86_400) by (nonlinear_arith)
                            requires
                                0 <= n <= u64::MAX,
                                0 <= u <= 86_400,
                        ;
                    }
                    n as u128 * u as u128 <= u64::MAX as u128
                },
                _ => true,
            }
        },
    }
}

/// Reads a window such as `7d`, `24h`, `90m` or `3600s`.
pub fn parse_window(s: &str) -> (r: Result<Window, String>)
    requires
        window_fits(s@),
    ensures
        match r {
            Ok(w) => window_secs(s@) matches Ok(n) && w.millis() == n * 1000,
            Err(e) => window_secs(s@) == Err::<int, Seq<char>>(e@),
        },
{
    let (t, n, unit) = window_parts(s);
    let (n, c): (u64, char) = match (n, unit) {
        (Some(n), Some(c)) => (n, c),
        _ => {
            let mut e = copy_text("invalid window '");
            e.append(t.as_str());
            e.append("': use e.g. 7d, 24h, 90m, 3600s");
            return Err(e);
        },
    };
    let u: u64 = match unit_length(c) {
        Some(u) => u,
        None => {
            let mut e = copy_text("invalid window unit '");
            e.push(c);
            e.append("': use d/h/m/s");
            proof {
                assert("invalid window unit '"@.push(c) =~= "invalid window unit '"@ + seq![c]);
            }
            return Err(e);
        },
    };
    if n == 0 {
        return Err(copy_text("window must be positive"));
    }
    proof {
        assert(n * u != 0) by (nonlinear_arith)
            requires
                n > 0,
                u > 0,
        ;
    }
    Ok(Window::from_secs(n * u))
}

/// What is wrong with the steps from position `i` on, the first fault of
/// them: a step without a name, or one that stands before it already.
pub open spec fn step_fault(steps: Seq<Seq<char>>, i: int) -> Option<Seq<char>>
    decreases steps.len() - i,
{
    if i >= steps.len() {
        None
    } else if trimmed(steps[i]).len() == 0 {
        Some("step "@ + decimal((i + 1) as nat) + " is empty"@)
    } else if steps.take(i).contains(steps[i]) {
        Some("duplicate step '"@ + steps[i] + "': funnel steps must be distinct events"@)
    } else {
        step_fault(steps, i + 1)
    }
}

/// What is wrong with the steps of a funnel: it has two to ten of them, each
/// with a name of its own.
pub open spec fn steps_fault(steps: Seq<Seq<char>>) -> Option<Seq<char>> {
    if steps.len() < 2 || steps.len() > 10 {
        Some("funnel needs 2..=10 steps, got "@ + decimal(steps.len()))
    } else {
        step_fault(steps, 0)
    }
}

/// What is wrong with the steps of a funnel, if anything is.
pub fn check_steps(steps: &[String]) -> (r: Option<String>)
    ensures
        opt_text(r) == steps_fault(texts(steps@)),
{
    let ghost names = texts(steps@);
    if steps.len() < 2 || steps.len() > 10 {
        let mut e = copy_text("funnel needs 2..=10 steps, got ");
        e.append(u64_text(steps.len() as u64).as_str());
        return Some(e);
    }
    let mut seen: Vec<String> = Vec::new();
    let mut i: usize = 0;
    while i < steps.len()
        invariant
            i <= steps.len(),
            2 <= steps.len() <= 10,
            names == texts(steps@),
            texts(seen@) == names.take(i as int),
            step_fault(names, 0) == step_fault(names, i as int),
        decreases steps.len() - i,
    {
        let s: &str = steps[i].as_str();
        if trim(s).as_str().is_empty() {
            let mut e = copy_text("step ");
            e.append(u64_text(i as u64 + 1).as_str());
            e.append(" is empty");
            return Some(e);
        }
        if contains_text(seen.as_slice(), s) {
            let mut e = copy_text("duplicate step '");
            e.append(s);
            e.append("': funnel steps must be distinct events");
            return Some(e);
        }
        let ghost before = seen@;
        seen.push(copy_text(s));
        proof {
            assert(texts(seen@) =~= texts(before).push(s@));
            assert(names.take(i + 1) =~= names.take(i as int).push(names[i as int]));
        }
        i += 1;
    }
    None
}

/// Steps without a fault have different names.
proof fn lemma_steps_differ(steps: Seq<Seq<char>>, i: int)
    requires
        0 <= i <= steps.len(),
        steps.take(i).no_duplicates(),
        step_fault(steps, i) is None,
    ensures
        steps.no_duplicates(),
    decreases steps.len() - i,
{
    if i == steps.len() {
        assert(steps.take(i) =~= steps);
    } else {
        let more = steps.take(i + 1);
        assert forall|a: int, b: int|
            0 <= a < more.len() && 0 <= b < more.len() && a != b implies more[a] != more[b] by {
            let less = steps.take(i);
            if a < i && b < i {
                assert(less[a] == more[a] && less[b] == more[b]);
            } else if a < i {
                assert(less[a] == more[a]);
                assert(less.contains(more[a]));
            } else {
                assert(less[b] == more[b]);
                assert(less.contains(more[b]));
            }
        }
        lemma_steps_differ(steps, i + 1);
    }
}

/// A condition on the time of an event, where there is one.
pub open spec fn time_bound(op: Seq<char>, at: Option<Seq<char>>) -> Seq<char> {
    match at {
        Some(t) => " AND occurred_at "@ + op + " "@ + quoted(t),
        None => Seq::empty(),
    }
}

pub(crate) fn push_time_bound(sql: &mut String, op: &str, at: &Option<String>)
    ensures
        final(sql)@ == old(sql)@ + time_bound(op@, opt_text(*at)),
{
    match at {
        Some(t) => {
            sql.append(" AND occurred_at ");
            sql.append(op);
            sql.append(" ");
            sql.append(sql_quote(t.as_str()).as_str());
            proof {
                assert(sql@ =~= old(sql)@ + time_bound(op@, opt_text(*at)));
            }
        },
        None => {
            proof {
                assert(sql@ =~= old(sql)@ + time_bound(op@, opt_text(*at)));
            }
        },
    }
}

/// Texts as a list of SQL string literals.
pub open spec fn literal_list(names: Seq<Seq<char>>) -> Seq<char> {
    joined(Seq::new(names.len(), |i: int| quoted(names[i])), ", "@)
}

fn sql_list(names: &[String]) -> (r: String)
    ensures
        r@ == literal_list(texts(names@)),
{
    let ghost want = Seq::new(names@.len(), |i: int| quoted(texts(names@)[i]));
    let mut literals: Vec<String> = Vec::new();
    let mut i: usize = 0;
    while i < names.len()
        invariant
            i <= names.len(),
            want == Seq::new(names@.len(), |i: int| quoted(texts(names@)[i])),
            texts(literals@) == want.take(i as int),
        decreases names.len() - i,
    {
        let ghost before = literals@;
        literals.push(sql_quote(names[i].as_str()));
        proof {
            assert(texts(literals@) =~= texts(before).push(want[i as int]));
            assert(want.take(i + 1) =~= want.take(i as int).push(want[i as int]));
        }
        i += 1;
    }
    proof {
        assert(want.take(i as int) =~= want);
        assert(want =~= Seq::new(texts(names@).len(), |i: int| quoted(texts(names@)[i])));
    }
    join(literals.as_slice(), ", ")
}

/// The events of users: those that carry the user's id, and those without a
/// user's id whose anonymous id some `$identify` event ties to the user,
/// whether they came before it or after.
pub const USER_EVENTS_SQL: &'static str =
    "SELECT product, user_id, occurred_at, event FROM events WHERE user_id <> '' UNION ALL SELECT e.product, l.user_id, e.occurred_at, e.event FROM events e JOIN identity_links l ON e.product = l.product AND e.anonymous_id = l.anonymous_id WHERE e.user_id = ''";

/// The query for the events of a funnel, sorted by user and time.
pub open spec fn funnel_query(
    product: Seq<char>,
    steps: Seq<Seq<char>>,
    since: Option<Seq<char>>,
    until: Option<Seq<char>>,
) -> Seq<char> {
    "SELECT user_id, occurred_at, event FROM ("@ + USER_EVENTS_SQL@
        + ") AS user_events WHERE product = "@ + quoted(product) + " AND event IN ("@
        + literal_list(steps) + ")"@ + time_bound(">="@, since) + time_bound("<"@, until)
        + " ORDER BY user_id, occurred_at"@
}

/// The query for the events of a funnel, or what is wrong with its steps.
pub fn funnel_sql(
    product: &str,
    steps: &[String],
    since: &Option<String>,
    until: &Option<String>,
) -> (r: Result<String, String>)
    ensures
        match r {
            Ok(sql) => steps_fault(texts(steps@)) is None && sql@ == funnel_query(
                product@,
                texts(steps@),
                opt_text(*since),
                opt_text(*until),
            ),
            Err(e) => steps_fault(texts(steps@)) == Some(e@),
        },
{
    match check_steps(steps) {
        Some(e) => {
            return Err(e);
        },
        None => {},
    }
    let mut sql = copy_text("SELECT user_id, occurred_at, event FROM (");
    sql.append(USER_EVENTS_SQL);
    sql.append(") AS user_events WHERE product = ");
    sql.append(sql_quote(product).as_str());
    sql.append(" AND event IN (");
    sql.append(sql_list(steps).as_str());
    sql.append(")");
    push_time_bound(&mut sql, ">=", since);
    push_time_bound(&mut sql, "<", until);
    sql.append(" ORDER BY user_id, occurred_at");
    Ok(sql)
}

/// A row that the funnel's query returns.
pub struct EventRow {
    pub user_id: String,
    pub occurred_at: String,
    pub event: String,
}

/// A row that the funnel's query returns, with its time in milliseconds since
/// 1970-01-01T00:00:00Z where its text for it is an instant.
pub struct TimedRow {
    pub user_id: String,
    pub millis: Option<i64>,
    pub event: String,
}

/// The row of the funnel that an event stands for: `None` where its time is
/// not known or it is none of the steps.
pub open spec fn step_row(
    user: Seq<char>,
    millis: Option<int>,
    event: Seq<char>,
    steps: Seq<Seq<char>>,
) -> Option<Row> {
    match millis {
        Some(ts) => if steps.contains(event) {
            Some(Row { user, ts, step: steps.index_of(event) })
        } else {
            None
        },
        None => None,
    }
}

/// The row of the funnel that a timed row stands for.
pub open spec fn timed_row(steps: Seq<Seq<char>>) -> spec_fn(TimedRow) -> Option<Row> {
    |r: TimedRow|
        step_row(
            r.user_id@,
            match r.millis {
                Some(ms) => Some(ms as int),
                None => None,
            },
            r.event@,
            steps,
        )
}

/// The milliseconds that an RFC 3339 text stands for.
pub open spec fn text_millis(s: Seq<char>) -> Option<int> {
    match rfc3339_value(s) {
        Some(p) => Some(millis_of(p.0 as int, p.1 as int)),
        None => None,
    }
}

/// The row of the funnel that a row of the query stands for.
pub open spec fn event_row(steps: Seq<Seq<char>>) -> spec_fn(EventRow) -> Option<Row> {
    |r: EventRow| step_row(r.user_id@, text_millis(r.occurred_at@), r.event@, steps)
}

/// The length of a window in milliseconds, cut to 64 bits.
pub open spec fn window_millis(w: Window) -> int {
    if w.millis() <= i64::MAX {
        w.millis()
    } else {
        i64::MAX as int
    }
}

/// The counts of a funnel: for each step, how many runs of rows of one user
/// get that far.
pub open spec fn is_counts(counts: Seq<u64>, rows: Seq<Row>, n_steps: nat, window: int) -> bool {
    &&& counts.len() == n_steps
    &&& forall|k: int|
        0 <= k < n_steps ==> #[trigger] counts[k] == runs_reaching(rows, 0, k + 1, window)
}

fn step_of(steps: &[String], event: &str) -> (r: Option<usize>)
    requires
        texts(steps@).no_duplicates(),
    ensures
        match r {
            Some(i) => i < steps@.len() && texts(steps@).contains(event@) && i == texts(
                steps@,
            ).index_of(event@),
            None => !texts(steps@).contains(event@),
        },
{
    let ghost names = texts(steps@);
    let mut i: usize = 0;
    while i < steps.len()
        invariant
            i <= steps.len(),
            names == texts(steps@),
            names.no_duplicates(),
            forall|j: int| 0 <= j < i ==> names[j] != event@,
        decreases steps.len() - i,
    {
        if same_text(steps[i].as_str(), event) {
            proof {
                assert(names[i as int] == event@);
                assert(names.contains(event@));
                let at = names.index_of(event@);
                assert(names[at] == event@);
            }
            return Some(i);
        }
        i += 1;
    }
    None
}

/// Counts the users per step of a funnel, given the times of its rows. Rows
/// without a time and rows that are none of the steps do not count.
pub fn count_steps(rows: &[TimedRow], steps: &[String], window: Window) -> (r: Result<
    Vec<u64>,
    String,
>)
    requires
        steps_fault(texts(steps@)) is None ==> times_fit(
            rows@.filter_map(timed_row(texts(steps@))),
        ),
    ensures
        match r {
            Ok(counts) => steps_fault(texts(steps@)) is None && is_counts(
                counts@,
                rows@.filter_map(timed_row(texts(steps@))),
                steps@.len(),
                window_millis(window),
            ),
            Err(e) => steps_fault(texts(steps@)) == Some(e@),
        },
{
    match check_steps(steps) {
        Some(e) => {
            return Err(e);
        },
        None => {},
    }
    let ghost names = texts(steps@);
    let ghost f = timed_row(names);
    proof {
        assert(names.take(0) =~= Seq::<Seq<char>>::empty());
        lemma_steps_differ(names, 0);
    }
    let mut items: Vec<(String, i64, usize)> = Vec::new();
    let mut i: usize = 0;
    proof {
        assert(rows@.take(0).filter_map(f) =~= Seq::<Row>::empty());
    }
    while i < rows.len()
        invariant
            i <= rows.len(),
            names == texts(steps@),
            names.no_duplicates(),
            f == timed_row(names),
            rows_of(items@) == rows@.take(i as int).filter_map(f),
            forall|j: int| 0 <= j < items@.len() ==> (#[trigger] items@[j]).2 < steps@.len(),
        decreases rows.len() - i,
    {
        let ghost before = items@;
        proof {
            rows@.lemma_filter_map_take_succ(f, i as int);
        }
        match (rows[i].millis, step_of(steps, rows[i].event.as_str())) {
            (Some(ts), Some(step)) => {
                let item: (String, i64, usize) = (copy_text(rows[i].user_id.as_str()), ts, step);
                items.push(item);
                proof {
                    let row = Row { user: item.0@, ts: ts as int, step: step as int };
                    assert(f(rows@[i as int]) == Some(row));
                    assert(rows_of(items@) =~= rows_of(before) + seq![row]);
                }
            },
            _ => {
                proof {
                    assert(f(rows@[i as int]) is None);
                    assert(rows_of(before) + Seq::<Row>::empty() =~= rows_of(before));
                }
            },
        }
        i += 1;
    }
    proof {
        assert(rows@.take(i as int) =~= rows@);
    }
    let millis: u128 = window.as_millis();
    let window_ms: i64 = if millis <= i64::MAX as u128 {
        millis as i64
    } else {
        i64::MAX
    };
    proof {
        assert(items@.len() == items.len());
    }
    Ok(fold(items.into_iter(), steps.len(), window_ms))
}

/// Rows whose times are known count as they do with their texts.
proof fn lemma_same_rows(rows: Seq<EventRow>, timed: Seq<TimedRow>, steps: Seq<Seq<char>>)
    requires
        rows.len() == timed.len(),
        forall|i: int|
            0 <= i < rows.len() ==> event_row(steps)(#[trigger] rows[i]) == timed_row(steps)(
                timed[i],
            ),
    ensures
        rows.filter_map(event_row(steps)) == timed.filter_map(timed_row(steps)),
    decreases rows.len(),
{
    if rows.len() > 0 {
        let a = rows.drop_last();
        let b = timed.drop_last();
        assert forall|i: int| 0 <= i < a.len() implies event_row(steps)(#[trigger] a[i])
            == timed_row(steps)(b[i]) by {
            assert(a[i] == rows[i]);
        }
        lemma_same_rows(a, b, steps);
        assert(event_row(steps)(rows[rows.len() - 1]) == timed_row(steps)(timed[rows.len() - 1]));
    }
}

/// Counts the users per step of a funnel, from the rows that its query
/// returns. Rows whose time is not RFC 3339 and rows that are none of the
/// steps do not count.
pub fn compute(rows: &[EventRow], steps: &[String], window: Window) -> (r: Result<
    Vec<u64>,
    String,
>)
    ensures
        match r {
            Ok(counts) => steps_fault(texts(steps@)) is None && is_counts(
                counts@,
                rows@.filter_map(event_row(texts(steps@))),
                steps@.len(),
                window_millis(window),
            ),
            Err(e) => steps_fault(texts(steps@)) == Some(e@),
        },
{
    let ghost names = texts(steps@);
    let mut timed: Vec<TimedRow> = Vec::new();
    let mut i: usize = 0;
    while i < rows.len()
        invariant
            i <= rows.len(),
            timed@.len() == i,
            names == texts(steps@),
            forall|j: int|
                0 <= j < i ==> event_row(names)(#[trigger] rows@[j]) == timed_row(names)(timed@[j]),
            forall|j: int|
                0 <= j < i ==> ((#[trigger] timed@[j]).millis matches Some(ms) ==>
                    -9_000_000_000_000_000 < ms < 9_000_000_000_000_000),
        decreases rows.len() - i,
    {
        let millis: Option<i64> = match Instant::parse_rfc3339(rows[i].occurred_at.as_str()) {
            Some(t) => Some(t.timestamp_millis()),
            None => None,
        };
        timed.push(
            TimedRow {
                user_id: copy_text(rows[i].user_id.as_str()),
                millis,
                event: copy_text(rows[i].event.as_str()),
            },
        );
        i += 1;
    }
    proof {
        lemma_same_rows(rows@, timed@, names);
        let all = timed@.filter_map(timed_row(names));
        assert forall|a: int| 0 <= a < all.len() implies -9_000_000_000_000_000 < (
        #[trigger] all[a]).ts < 9_000_000_000_000_000 by {
            assert(all.contains(all[a]));
            timed@.lemma_filter_map_contains(timed_row(names), all[a]);
        }
    }
    count_steps(timed.as_slice(), steps, window)
}

/// Whether rows of the query are ordered by the name of their user.
pub open spec fn query_sorted(rows: Seq<EventRow>) -> bool {
    forall|i: int, j: int|
        0 <= i < j < rows.len() ==> (#[trigger] rows[i]).user_id@ == (#[trigger] rows[j]).user_id@
            || lex_lt(rows[i].user_id@, rows[j].user_id@)
}

/// Where the query returns its rows ordered by user, each number that
/// `compute` returns is a number of users: of those with a chain of that many
/// steps.
pub proof fn law_funnel_counts_users(
    rows: Seq<EventRow>,
    steps: Seq<Seq<char>>,
    counts: Seq<u64>,
    window: Window,
    k: int,
)
    requires
        query_sorted(rows),
        is_counts(counts, rows.filter_map(event_row(steps)), steps.len(), window_millis(window)),
        0 <= k < steps.len(),
    ensures
        counts[k] == users_reaching(
            rows.filter_map(event_row(steps)),
            k + 1,
            window_millis(window),
        ).len(),
{
    lemma_rows_stay_sorted(rows, steps);
    law_counts_are_unique_users(rows.filter_map(event_row(steps)), k + 1, window_millis(window));
}

proof fn lemma_rows_stay_sorted(rows: Seq<EventRow>, steps: Seq<Seq<char>>)
    requires
        query_sorted(rows),
    ensures
        sorted_by_user(rows.filter_map(event_row(steps))),
    decreases rows.len(),
{
    let f = event_row(steps);
    if rows.len() > 0 {
        let front = rows.drop_last();
        assert(query_sorted(front));
        lemma_rows_stay_sorted(front, steps);
        let kept = front.filter_map(f);
        let all = rows.filter_map(f);
        assert forall|i: int, j: int| 0 <= i < j < all.len() implies (#[trigger] all[i]).user == (
        #[trigger] all[j]).user || lex_lt(all[i].user, all[j].user) by {
            if j < kept.len() {
                assert(all[i] == kept[i] && all[j] == kept[j]);
            } else {
                assert(all[i] == kept[i]);
                assert(kept.contains(kept[i]));
                front.lemma_filter_map_contains(f, kept[i]);
                let from = choose|x: EventRow| #[trigger]
                    front.contains(x) && f(x) == Some(kept[i]);
                let at = front.index_of(from);
                assert(rows[at] == from);
            }
        }
    }
}

/// Whether a text for a time is within the bounds of a query, by the order of
/// texts: from the first on, and before the second.
pub open spec fn within(at: Seq<char>, since: Option<Seq<char>>, until: Option<Seq<char>>) -> bool {
    (since matches Some(s) ==> !lex_lt(at, s)) && (until matches Some(u) ==> lex_lt(at, u))
}

/// The rows within the bounds of a query.
pub open spec fn rows_within(
    rows: Seq<EventRow>,
    since: Option<Seq<char>>,
    until: Option<Seq<char>>,
) -> Seq<EventRow> {
    rows.filter(|r: EventRow| within(r.occurred_at@, since, until))
}

/// The rows within bounds are those from `since` on and before `until`, and
/// they are what a query without bounds has of these alone.
pub proof fn law_bounds_select_rows(rows: Seq<EventRow>, since: Seq<char>, until: Seq<char>)
    ensures
        rows_within(rows, Some(since), Some(until)) == rows_within(
            rows.filter(
                |r: EventRow| !lex_lt(r.occurred_at@, since) && lex_lt(r.occurred_at@, until),
            ),
            None,
            None,
        ),
{
    let p = |r: EventRow| within(r.occurred_at@, Some(since), Some(until));
    let q = |r: EventRow| !lex_lt(r.occurred_at@, since) && lex_lt(r.occurred_at@, until);
    let all = |r: EventRow| within(r.occurred_at@, None, None);
    assert(p =~= q);
    lemma_all_rows(rows.filter(q), all);
}

proof fn lemma_all_rows(rows: Seq<EventRow>, p: spec_fn(EventRow) -> bool)
    requires
        forall|r: EventRow| #[trigger] p(r),
    ensures
        rows.filter(p) == rows,
    decreases rows.len(),
{
    reveal(Seq::filter);
    if rows.len() > 0 {
        lemma_all_rows(rows.drop_last(), p);
        assert(rows.drop_last().push(rows.last()) =~= rows);
    }
}

/// With bare dates for bounds, the events of the days from the first on and
/// before the second are within them, where years have four digits.
pub proof fn law_dates_bound_by_day(secs: int, nanos: int, since: int, until: int)
    requires
        has_plain_year(secs),
        has_plain_year(since),
        has_plain_year(until),
    ensures
        within(
            rfc3339_text(secs, nanos),
            Some(date_text(date_of(day_of(since)))),
            Some(date_text(date_of(day_of(until)))),
        ) <==> day_of(since) <= day_of(secs) < day_of(until),
{
    law_bare_dates_bound_the_texts(secs, nanos, since);
    law_bare_dates_bound_the_texts(secs, nanos, until);
}

/// With instants for bounds, the events from the first on and before the
/// second are within them, to the millisecond and where years have four
/// digits.
pub proof fn law_instants_bound_by_time(at: (int, int), since: (int, int), until: (int, int))
    requires
        is_instant(at.0, at.1) && has_plain_year(at.0),
        is_instant(since.0, since.1) && has_plain_year(since.0),
        is_instant(until.0, until.1) && has_plain_year(until.0),
    ensures
        within(
            rfc3339_text(at.0, at.1),
            Some(rfc3339_text(since.0, since.1)),
            Some(rfc3339_text(until.0, until.1)),
        ) <==> !before_by_millis(at.0, at.1, since.0, since.1) && before_by_millis(
            at.0,
            at.1,
            until.0,
            until.1,
        ),
{
    law_rfc3339_texts_sort_by_time(at.0, at.1, since.0, since.1);
    law_rfc3339_texts_sort_by_time(at.0, at.1, until.0, until.1);
}

/// An event as a funnel sees it: whose it is, when it happened in milliseconds
/// where that is known, and what it is.
pub struct Seen {
    pub user: Seq<char>,
    pub millis: Option<int>,
    pub event: Seq<char>,
}

spec fn seen_row(steps: Seq<Seq<char>>) -> spec_fn(Seen) -> Option<Row> {
    |s: Seen| step_row(s.user, s.millis, s.event, steps)
}

/// Whether the rows at the given positions are a user's way through the first
/// steps: they stand one behind another, each is of the user and of the step
/// whose turn it is, each has a time, and none is later than the first by more
/// than the window.
pub open spec fn is_way(
    rows: Seq<Seen>,
    steps: Seq<Seq<char>>,
    user: Seq<char>,
    at: Seq<int>,
    window: int,
) -> bool {
    &&& 0 < at.len() <= steps.len()
    &&& forall|i: int| 0 <= i < at.len() ==> 0 <= #[trigger] at[i] < rows.len()
    &&& forall|i: int, j: int| 0 <= i < j < at.len() ==> #[trigger] at[i] < #[trigger] at[j]
    &&& forall|i: int|
        0 <= i < at.len() ==> rows[#[trigger] at[i]].user == user && rows[at[i]].event
            == steps[i] && rows[at[i]].millis is Some
    &&& forall|i: int|
        0 <= i < at.len() ==> rows[#[trigger] at[i]].millis->0 - rows[at[0]].millis->0 <= window
            || i == 0
}

/// Whether the events of a user hold a way through the first `k` steps.
pub open spec fn gets_through(
    rows: Seq<Seen>,
    steps: Seq<Seq<char>>,
    user: Seq<char>,
    k: int,
    window: int,
) -> bool {
    exists|at: Seq<int>| #[trigger] is_way(rows, steps, user, at, window) && at.len() == k
}

/// The users whose events hold a way through the first `k` steps.
pub open spec fn users_through(
    rows: Seq<Seen>,
    steps: Seq<Seq<char>>,
    k: int,
    window: int,
) -> Set<Seq<char>> {
    Set::new(|user: Seq<char>| gets_through(rows, steps, user, k, window))
}

/// Whether events are ordered by the name of their user.
spec fn seen_sorted(rows: Seq<Seen>) -> bool {
    forall|i: int, j: int|
        0 <= i < j < rows.len() ==> (#[trigger] rows[i]).user == (#[trigger] rows[j]).user
            || lex_lt(rows[i].user, rows[j].user)
}

/// The positions of the rows that stand for a row of the funnel.
spec fn kept_at<A>(rows: Seq<A>, f: spec_fn(A) -> Option<Row>) -> Seq<int>
    decreases rows.len(),
{
    if rows.len() == 0 {
        Seq::empty()
    } else {
        let front = kept_at(rows.drop_last(), f);
        if f(rows.last()) is Some {
            front.push(rows.len() - 1)
        } else {
            front
        }
    }
}

proof fn lemma_kept_at<A>(rows: Seq<A>, f: spec_fn(A) -> Option<Row>)
    ensures
        kept_at(rows, f).len() == rows.filter_map(f).len(),
        forall|i: int|
            0 <= i < kept_at(rows, f).len() ==> 0 <= #[trigger] kept_at(rows, f)[i] < rows.len()
                && f(rows[kept_at(rows, f)[i]]) == Some(rows.filter_map(f)[i]),
        forall|i: int, j: int|
            0 <= i < j < kept_at(rows, f).len() ==> #[trigger] kept_at(rows, f)[i]
                < #[trigger] kept_at(rows, f)[j],
        forall|p: int|
            0 <= p < rows.len() && f(#[trigger] rows[p]) is Some ==> kept_at(rows, f).contains(p),
    decreases rows.len(),
{
    if rows.len() > 0 {
        let front = rows.drop_last();
        lemma_kept_at(front, f);
        let less = kept_at(front, f);
        let more = kept_at(rows, f);
        let last = rows.len() - 1;
        assert forall|i: int| 0 <= i < more.len() implies 0 <= #[trigger] more[i] < rows.len()
            && f(rows[more[i]]) == Some(rows.filter_map(f)[i]) by {
            if i < less.len() {
                assert(more[i] == less[i]);
                assert(front[less[i]] == rows[less[i]]);
            }
        }
        assert forall|i: int, j: int| 0 <= i < j < more.len() implies #[trigger] more[i]
            < #[trigger] more[j] by {
            assert(more[i] == less[i]);
            if j < less.len() {
                assert(more[j] == less[j]);
            }
        }
        assert forall|p: int| 0 <= p < rows.len() && f(#[trigger] rows[p]) is Some implies
            more.contains(p) by {
            if p < last {
                assert(front[p] == rows[p]);
                assert(less.contains(p));
                assert(more[less.index_of(p)] == p);
            } else {
                assert(more[less.len() as int] == p);
            }
        }
    }
}

/// What a row stands for: its event tells the step, and its user and its time
/// are kept.
proof fn lemma_seen_row(row: Seen, steps: Seq<Seq<char>>, i: int)
    requires
        steps.no_duplicates(),
        0 <= i < steps.len(),
    ensures
        seen_row(steps)(row) matches Some(r) && r.step == i <==> row.event == steps[i]
            && row.millis is Some,
        seen_row(steps)(row) matches Some(r) ==> r.user == row.user && row.millis == Some(r.ts)
            && 0 <= r.step < steps.len(),
{
    if row.event == steps[i] {
        assert(steps.contains(row.event));
        assert(steps[steps.index_of(row.event)] == steps[i]);
    }
    if steps.contains(row.event) {
        assert(steps[steps.index_of(row.event)] == row.event);
    }
}

/// A way through the steps is a chain of the funnel's rows, and the other way
/// round.
proof fn lemma_ways_are_chains(
    rows: Seq<Seen>,
    steps: Seq<Seq<char>>,
    user: Seq<char>,
    k: int,
    window: int,
)
    requires
        steps.no_duplicates(),
        1 <= k <= steps.len(),
    ensures
        gets_through(rows, steps, user, k, window) <==> user_reaches(
            rows.filter_map(seen_row(steps)),
            user,
            k,
            window,
        ),
{
    let f = seen_row(steps);
    let kept = rows.filter_map(f);
    let pos = kept_at(rows, f);
    lemma_kept_at(rows, f);
    if user_reaches(kept, user, k, window) {
        let chain = choose|at: Seq<int>| #[trigger]
            is_chain(kept, at, window) && at.len() == k && all_of_user(kept, at, user);
        let at = Seq::new(chain.len(), |i: int| pos[chain[i]]);
        assert forall|i: int| 0 <= i < at.len() implies 0 <= #[trigger] at[i] < rows.len()
            && rows[at[i]].user == user && rows[at[i]].event == steps[i]
            && rows[at[i]].millis is Some && rows[at[i]].millis->0 == kept[chain[i]].ts by {
            assert(0 <= chain[i] < kept.len());
            assert(f(rows[pos[chain[i]]]) == Some(kept[chain[i]]));
            assert(kept[chain[i]].step == i);
            assert(kept[chain[i]].user == user);
            lemma_seen_row(rows[at[i]], steps, i);
        }
        assert forall|i: int, j: int| 0 <= i < j < at.len() implies #[trigger] at[i]
            < #[trigger] at[j] by {
            assert(chain[i] < chain[j]);
            assert(0 <= chain[i] && chain[j] < kept.len());
        }
        assert forall|i: int| 0 <= i < at.len() implies rows[#[trigger] at[i]].millis->0
            - rows[at[0]].millis->0 <= window || i == 0 by {
            assert(at[0] == pos[chain[0]]);
            if i > 0 {
                assert(kept[chain[i]].ts - kept[chain[0]].ts <= window);
            }
        }
        assert(is_way(rows, steps, user, at, window) && at.len() == k);
    }
    if gets_through(rows, steps, user, k, window) {
        let way = choose|at: Seq<int>| #[trigger]
            is_way(rows, steps, user, at, window) && at.len() == k;
        let at = Seq::new(way.len(), |i: int| pos.index_of(way[i]));
        assert forall|i: int| 0 <= i < at.len() implies 0 <= #[trigger] at[i] < kept.len()
            && pos[at[i]] == way[i] && kept[at[i]].step == i && kept[at[i]].user == user
            && kept[at[i]].ts == rows[way[i]].millis->0 by {
            assert(0 <= way[i] < rows.len());
            lemma_seen_row(rows[way[i]], steps, i);
            assert(f(rows[way[i]]) is Some);
            assert(pos.contains(way[i]));
            assert(f(rows[pos[at[i]]]) == Some(kept[at[i]]));
        }
        assert forall|i: int, j: int| 0 <= i < j < at.len() implies #[trigger] at[i]
            < #[trigger] at[j] by {
            assert(way[i] < way[j]);
            assert(pos[at[i]] == way[i] && pos[at[j]] == way[j]);
            if at[j] < at[i] {
                assert(pos[at[j]] < pos[at[i]]);
            }
        }
        assert forall|i: int| 0 < i < at.len() implies kept[#[trigger] at[i]].ts - kept[at[0]].ts
            <= window by {
            assert(rows[way[i]].millis->0 - rows[way[0]].millis->0 <= window);
            assert(kept[at[0]].ts == rows[way[0]].millis->0);
        }
        assert(is_chain(kept, at, window));
        assert(all_of_user(kept, at, user));
    }
}

proof fn lemma_seen_rows_stay_sorted(rows: Seq<Seen>, steps: Seq<Seq<char>>)
    requires
        seen_sorted(rows),
    ensures
        sorted_by_user(rows.filter_map(seen_row(steps))),
{
    let f = seen_row(steps);
    let kept = rows.filter_map(f);
    let pos = kept_at(rows, f);
    lemma_kept_at(rows, f);
    assert forall|i: int, j: int| 0 <= i < j < kept.len() implies (#[trigger] kept[i]).user == (
    #[trigger] kept[j]).user || lex_lt(kept[i].user, kept[j].user) by {
        assert(pos[i] < pos[j]);
        assert(f(rows[pos[i]]) == Some(kept[i]) && f(rows[pos[j]]) == Some(kept[j]));
        assert(rows[pos[i]].user == kept[i].user && rows[pos[j]].user == kept[j].user);
    }
}

proof fn lemma_counts_of_seen(
    rows: Seq<Seen>,
    steps: Seq<Seq<char>>,
    counts: Seq<u64>,
    window: int,
    k: int,
)
    requires
        seen_sorted(rows),
        steps_fault(steps) is None,
        is_counts(counts, rows.filter_map(seen_row(steps)), steps.len(), window),
        0 <= k < steps.len(),
    ensures
        users_through(rows, steps, k + 1, window).finite(),
        counts[k] == users_through(rows, steps, k + 1, window).len(),
{
    let kept = rows.filter_map(seen_row(steps));
    assert(steps.take(0) =~= Seq::<Seq<char>>::empty());
    lemma_steps_differ(steps, 0);
    lemma_seen_rows_stay_sorted(rows, steps);
    law_counts_are_unique_users(kept, k + 1, window);
    let users = users_through(rows, steps, k + 1, window);
    assert forall|user: Seq<char>| #[trigger]
        users.contains(user) <==> users_reaching(kept, k + 1, window).contains(user) by {
        lemma_ways_are_chains(rows, steps, user, k + 1, window);
    }
    assert(users =~= users_reaching(kept, k + 1, window));
}

proof fn lemma_seen_rows<A>(
    rows: Seq<A>,
    f: spec_fn(A) -> Option<Row>,
    seen: Seq<Seen>,
    steps: Seq<Seq<char>>,
)
    requires
        rows.len() == seen.len(),
        forall|i: int| 0 <= i < rows.len() ==> f(#[trigger] rows[i]) == seen_row(steps)(seen[i]),
    ensures
        rows.filter_map(f) == seen.filter_map(seen_row(steps)),
    decreases rows.len(),
{
    if rows.len() > 0 {
        let a = rows.drop_last();
        let b = seen.drop_last();
        assert forall|i: int| 0 <= i < a.len() implies f(#[trigger] a[i]) == seen_row(steps)(
            b[i],
        ) by {
            assert(a[i] == rows[i]);
        }
        lemma_seen_rows(a, f, b, steps);
        assert(f(rows[rows.len() - 1]) == seen_row(steps)(seen[rows.len() - 1]));
    }
}

/// On rows that are ordered by user, each number that `count_steps` returns is
/// the number of users whose events hold a way through that many steps, each
/// within the window's own milliseconds of the first as long as these stay in
/// 64 bits, and within the most that 64 bits hold otherwise.
pub proof fn law_counts_are_users_who_got_through(
    rows: Seq<TimedRow>,
    steps: Seq<Seq<char>>,
    counts: Seq<u64>,
    window: Window,
    k: int,
)
    requires
        forall|i: int, j: int|
            0 <= i < j < rows.len() ==> (#[trigger] rows[i]).user_id@ == (
            #[trigger] rows[j]).user_id@ || lex_lt(rows[i].user_id@, rows[j].user_id@),
        steps_fault(steps) is None,
        is_counts(counts, rows.filter_map(timed_row(steps)), steps.len(), window_millis(window)),
        0 <= k < steps.len(),
    ensures
        ({
            let seen = Seq::new(
                rows.len(),
                |i: int|
                    Seen {
                        user: rows[i].user_id@,
                        millis: match rows[i].millis {
                            Some(ms) => Some(ms as int),
                            None => None,
                        },
                        event: rows[i].event@,
                    },
            );
            let most = 9_223_372_036_854_775_807int;
            let millis = if window.millis() <= most {
                window.millis()
            } else {
                most
            };
            let users = users_through(seen, steps, k + 1, millis);
            users.finite() && counts[k] == users.len()
        }),
{
    let seen = Seq::new(
        rows.len(),
        |i: int|
            Seen {
                user: rows[i].user_id@,
                millis: match rows[i].millis {
                    Some(ms) => Some(ms as int),
                    None => None,
                },
                event: rows[i].event@,
            },
    );
    lemma_seen_rows(rows, timed_row(steps), seen, steps);
    lemma_counts_of_seen(seen, steps, counts, window_millis(window), k);
}

/// On rows that are ordered by user, as the funnel's query returns them, each
/// number that `compute` returns is the number of users whose events hold a way
/// through that many steps, by the times that their texts stand for.
pub proof fn law_funnels_count_users_who_got_through(
    rows: Seq<EventRow>,
    steps: Seq<Seq<char>>,
    counts: Seq<u64>,
    window: Window,
    k: int,
)
    requires
        forall|i: int, j: int|
            0 <= i < j < rows.len() ==> (#[trigger] rows[i]).user_id@ == (
            #[trigger] rows[j]).user_id@ || lex_lt(rows[i].user_id@, rows[j].user_id@),
        steps_fault(steps) is None,
        is_counts(counts, rows.filter_map(event_row(steps)), steps.len(), window_millis(window)),
        0 <= k < steps.len(),
    ensures
        ({
            let seen = Seq::new(
                rows.len(),
                |i: int|
                    Seen {
                        user: rows[i].user_id@,
                        millis: match rfc3339_value(rows[i].occurred_at@) {
                            Some(v) => Some(v.0 * 1000 + (v.1 as int) / 1_000_000),
                            None => None,
                        },
                        event: rows[i].event@,
                    },
            );
            let most = 9_223_372_036_854_775_807int;
            let millis = if window.millis() <= most {
                window.millis()
            } else {
                most
            };
            let users = users_through(seen, steps, k + 1, millis);
            users.finite() && counts[k] == users.len()
        }),
{
    let seen = Seq::new(
        rows.len(),
        |i: int|
            Seen {
                user: rows[i].user_id@,
                millis: match rfc3339_value(rows[i].occurred_at@) {
                    Some(v) => Some(v.0 * 1000 + (v.1 as int) / 1_000_000),
                    None => None,
                },
                event: rows[i].event@,
            },
    );
    lemma_seen_rows(rows, event_row(steps), seen, steps);
    lemma_counts_of_seen(seen, steps, counts, window_millis(window), k);
}

/// A window counts with its own milliseconds as long as these stay in 64 bits,
/// and with the most that 64 bits hold otherwise.
pub proof fn law_windows_count_with_their_milliseconds(w: Window)
    ensures
        w.millis() <= 9_223_372_036_854_775_807 ==> window_millis(w) == w.millis(),
        w.millis() > 9_223_372_036_854_775_807 ==> window_millis(w) == 9_223_372_036_854_775_807,
{
}

/// Rows of one user count once if they hold a chain and not otherwise; rows
/// that start with another user than the last of those before them count for
/// themselves.
pub proof fn law_runs_count_one_by_one(a: Seq<Row>, b: Seq<Row>, k: int, window: int)
    ensures
        a.len() > 0 && (forall|i: int| 0 <= i < a.len() ==> (#[trigger] a[i]).user == a[0].user)
            ==> runs_reaching(a, 0, k, window) == if reaches(a, k, window) {
            1nat
        } else {
            0nat
        },
        a.len() > 0 && b.len() > 0 && a.last().user != b[0].user ==> runs_reaching(
            a + b,
            0,
            k,
            window,
        ) == runs_reaching(a, 0, k, window) + runs_reaching(b, 0, k, window),
        runs_reaching(Seq::empty(), 0, k, window) == 0,
{
    if a.len() > 0 && (forall|i: int| 0 <= i < a.len() ==> (#[trigger] a[i]).user == a[0].user) {
        reveal_with_fuel(runs_reaching, 2);
        lemma_run_end_is(a, 0, a.len() as int);
        assert(run_at(a, 0) =~= a);
    }
    if a.len() > 0 && b.len() > 0 && a.last().user != b[0].user {
        lemma_runs_in_front(a, b, 0, k, window);
    }
}

proof fn lemma_runs_behind(a: Seq<Row>, b: Seq<Row>, j: int, k: int, window: int)
    requires
        0 <= j <= b.len(),
    ensures
        runs_reaching(a + b, a.len() + j, k, window) == runs_reaching(b, j, k, window),
    decreases b.len() - j,
{
    if j < b.len() {
        let all = a + b;
        lemma_run_end(b, j);
        let e = run_end(b, j);
        assert forall|i: int| a.len() + j <= i < a.len() + e implies (#[trigger] all[i]).user
            == all[a.len() + j].user by {
            assert(all[i] == b[i - a.len()]);
        }
        lemma_run_end_is(all, a.len() + j, a.len() + e);
        assert(run_at(all, a.len() + j) =~= run_at(b, j));
        lemma_runs_behind(a, b, e, k, window);
    }
}

proof fn lemma_runs_in_front(a: Seq<Row>, b: Seq<Row>, i: int, k: int, window: int)
    requires
        0 <= i <= a.len(),
        a.len() > 0,
        b.len() > 0,
        a.last().user != b[0].user,
    ensures
        runs_reaching(a + b, i, k, window) == runs_reaching(a, i, k, window) + runs_reaching(
            b,
            0,
            k,
            window,
        ),
    decreases a.len() - i,
{
    let all = a + b;
    if i == a.len() {
        lemma_runs_behind(a, b, 0, k, window);
    } else {
        lemma_run_end(a, i);
        let e = run_end(a, i);
        assert forall|j: int| i <= j < e implies (#[trigger] all[j]).user == all[i].user by {
            assert(all[j] == a[j]);
        }
        if e == a.len() {
            assert(all[e] == b[0]);
            assert(a[e - 1].user == a[i].user);
        } else {
            assert(all[e] == a[e]);
        }
        lemma_run_end_is(all, i, e);
        assert(run_at(all, i) =~= run_at(a, i));
        lemma_runs_in_front(a, b, e, k, window);
    }
}

/// Rows whose times are within half of what 64 bits hold fit.
pub proof fn law_usual_times_fit(rows: Seq<Row>)
    requires
        forall|i: int|
            0 <= i < rows.len() ==> -4_611_686_018_427_387_904 <= (#[trigger] rows[i]).ts
                < 4_611_686_018_427_387_904,
    ensures
        times_fit(rows),
{
}

/// A tuple stands for the row with its parts.
pub proof fn law_items_are_rows(items: Seq<(String, i64, usize)>, i: int)
    requires
        0 <= i < items.len(),
    ensures
        rows_of(items).len() == items.len(),
        rows_of(items)[i] == (Row {
            user: items[i].0@,
            ts: items[i].1 as int,
            step: items[i].2 as int,
        }),
{
}

/// A window is a number and the letter of its unit, with white space around
/// them or not; it stands for that many days, hours, minutes or seconds.
pub proof fn law_windows_are_numbers_of_units(
    n: u64,
    unit: char,
    before: Seq<char>,
    after: Seq<char>,
)
    requires
        is_blank(before),
        is_blank(after),
        !is_space(unit),
    ensures
        ({
            let secs = window_secs(before + decimal(n as nat).push(unit) + after);
            &&& n > 0 && unit == 'd' ==> secs == Ok::<int, Seq<char>>(n * 86_400)
            &&& n > 0 && unit == 'h' ==> secs == Ok::<int, Seq<char>>(n * 3_600)
            &&& n > 0 && unit == 'm' ==> secs == Ok::<int, Seq<char>>(n * 60)
            &&& n > 0 && unit == 's' ==> secs == Ok::<int, Seq<char>>(n as int)
            &&& n == 0 && (unit == 'd' || unit == 'h' || unit == 'm' || unit == 's') ==> secs
                == Err::<int, Seq<char>>("window must be positive"@)
            &&& unit != 'd' && unit != 'h' && unit != 'm' && unit != 's' ==> secs == Err::<
                int,
                Seq<char>,
            >("invalid window unit '"@ + seq![unit] + "': use d/h/m/s"@)
        }),
{
    let t = decimal(n as nat).push(unit);
    law_decimal_reads_back(n as nat, 0, u64::MAX as int);
    lemma_decimal_start(n as nat);
    lemma_digits_are_no_space(t[0]);
    law_trimming_finds_the_text(before, t, after);
    assert(t.drop_last() =~= decimal(n as nat));
    lemma_window_secs(before + t + after, n as int, unit);
}

proof fn lemma_window_secs(s: Seq<char>, n: int, unit: char)
    requires
        trimmed(s).len() > 0,
        trimmed(s).last() == unit,
        int_value(trimmed(s).drop_last(), 0, u64::MAX as int) == Ok::<int, IntError>(n),
        n >= 0,
    ensures
        n > 0 && unit == 'd' ==> window_secs(s) == Ok::<int, Seq<char>>(n * 86_400),
        n > 0 && unit == 'h' ==> window_secs(s) == Ok::<int, Seq<char>>(n * 3_600),
        n > 0 && unit == 'm' ==> window_secs(s) == Ok::<int, Seq<char>>(n * 60),
        n > 0 && unit == 's' ==> window_secs(s) == Ok::<int, Seq<char>>(n),
        n == 0 && (unit == 'd' || unit == 'h' || unit == 'm' || unit == 's') ==> window_secs(s)
            == Err::<int, Seq<char>>("window must be positive"@),
        unit != 'd' && unit != 'h' && unit != 'm' && unit != 's' ==> window_secs(s) == Err::<
            int,
            Seq<char>,
        >("invalid window unit '"@ + seq![unit] + "': use d/h/m/s"@),
{
    assert(window_number(trimmed(s)) == Some(n));
    if unit == 'd' {
        assert(unit_secs(unit) == Some(86_400int));
    } else if unit == 'h' {
        assert(unit_secs(unit) == Some(3_600int));
    } else if unit == 'm' {
        assert(unit_secs(unit) == Some(60int));
    } else if unit == 's' {
        assert(unit_secs(unit) == Some(1int));
    } else {
        assert(unit_secs(unit) is None);
    }
}

proof fn lemma_digits_are_no_space(c: char)
    requires
        '0' <= c <= '9',
    ensures
        !is_space(c),
{
}

/// What has no number in front of its last character is no window, and what is
/// one has a unit behind a number that is not zero.
pub proof fn law_only_numbers_of_units_are_windows(s: Seq<char>)
    ensures
        is_blank(s) ==> window_secs(s) is Err,
        trimmed(s).len() > 0 && int_value(trimmed(s).drop_last(), 0, u64::MAX as int) is Err
            ==> window_secs(s) == Err::<int, Seq<char>>(
            "invalid window '"@ + trimmed(s) + "': use e.g. 7d, 24h, 90m, 3600s"@,
        ),
        window_secs(s) matches Ok(secs) ==> trimmed(s).len() > 0 && (int_value(
            trimmed(s).drop_last(),
            0,
            u64::MAX as int,
        ) matches Ok(n) && n > 0 && ({
            let unit = trimmed(s).last();
            ||| unit == 'd' && secs == n * 86_400
            ||| unit == 'h' && secs == n * 3_600
            ||| unit == 'm' && secs == n * 60
            ||| unit == 's' && secs == n
        })),
{
    let _ = law_trimming_cuts_white_space_only(s);
    if trimmed(s).len() > 0 {
        law_numbers_stay_in_range(trimmed(s).drop_last(), 0, u64::MAX as int);
    }
}

/// Every text can be read as a window but those that end with a character of
/// more than one byte, and those of more seconds than 64 bits hold.
pub proof fn law_which_windows_can_be_read(s: Seq<char>)
    ensures
        is_blank(s) ==> window_fits(s),
        trimmed(s).len() > 0 ==> (window_fits(s) <==> (trimmed(s).last() as int) < 128 && (
        window_secs(s) matches Ok(n) ==> n <= 18_446_744_073_709_551_615)),
{
    let _ = law_trimming_cuts_white_space_only(s);
}

/// A funnel is right exactly if it has two to ten steps, none of them blank
/// and no two of them the same.
pub proof fn law_funnels_have_different_steps(steps: Seq<Seq<char>>)
    ensures
        steps_fault(steps) is None <==> 2 <= steps.len() <= 10 && (forall|i: int|
            0 <= i < steps.len() ==> !is_blank(#[trigger] steps[i])) && (forall|i: int, j: int|
            0 <= i < j < steps.len() ==> #[trigger] steps[i] != #[trigger] steps[j]),
        !(2 <= steps.len() <= 10) ==> steps_fault(steps) == Some(
            "funnel needs 2..=10 steps, got "@ + decimal(steps.len()),
        ),
{
    if 2 <= steps.len() <= 10 {
        lemma_no_fault_from(steps, 0);
    }
}

proof fn lemma_no_fault_from(steps: Seq<Seq<char>>, from: int)
    requires
        0 <= from <= steps.len(),
    ensures
        step_fault(steps, from) is None <==> (forall|i: int|
            from <= i < steps.len() ==> !is_blank(#[trigger] steps[i])) && (forall|i: int, j: int|
            0 <= i < j < steps.len() && from <= j ==> #[trigger] steps[i] != #[trigger] steps[j]),
    decreases steps.len() - from,
{
    if from < steps.len() {
        lemma_no_fault_from(steps, from + 1);
        let _ = law_trimming_cuts_white_space_only(steps[from]);
        let before = steps.take(from);
        if before.contains(steps[from]) {
            let i = before.index_of(steps[from]);
            assert(steps[i] == steps[from]);
        }
        assert forall|i: int| 0 <= i < from && steps[i] == steps[from] implies before.contains(
            steps[from],
        ) by {
            assert(before[i] == steps[from]);
        }
    }
}

/// Of several faults the first is told: at the first position that has one, a
/// blank name goes before one that stands there already.
pub proof fn law_the_first_faulty_step_is_told(steps: Seq<Seq<char>>, i: int)
    requires
        2 <= steps.len() <= 10,
        0 <= i < steps.len(),
        forall|j: int| 0 <= j < i ==> !is_blank(#[trigger] steps[j]),
        forall|a: int, b: int| 0 <= a < b < i ==> #[trigger] steps[a] != #[trigger] steps[b],
    ensures
        is_blank(steps[i]) ==> steps_fault(steps) == Some(
            "step "@ + decimal((i + 1) as nat) + " is empty"@,
        ),
        !is_blank(steps[i]) && (exists|j: int| 0 <= j < i && #[trigger] steps[j] == steps[i])
            ==> steps_fault(steps) == Some(
            "duplicate step '"@ + steps[i] + "': funnel steps must be distinct events"@,
        ),
{
    lemma_fault_comes_later(steps, 0, i);
    let _ = law_trimming_cuts_white_space_only(steps[i]);
    if exists|j: int| 0 <= j < i && #[trigger] steps[j] == steps[i] {
        let j = choose|j: int| 0 <= j < i && #[trigger] steps[j] == steps[i];
        assert(steps.take(i)[j] == steps[i]);
    }
}

proof fn lemma_fault_comes_later(steps: Seq<Seq<char>>, from: int, i: int)
    requires
        0 <= from <= i < steps.len(),
        forall|j: int| 0 <= j < i ==> !is_blank(#[trigger] steps[j]),
        forall|a: int, b: int| 0 <= a < b < i ==> #[trigger] steps[a] != #[trigger] steps[b],
    ensures
        step_fault(steps, from) == step_fault(steps, i),
    decreases i - from,
{
    if from < i {
        let _ = law_trimming_cuts_white_space_only(steps[from]);
        let before = steps.take(from);
        if before.contains(steps[from]) {
            let j = before.index_of(steps[from]);
            assert(steps[j] == steps[from]);
        }
        lemma_fault_comes_later(steps, from + 1, i);
    }
}

/// A bound on the time of events stands in a query whenever one is given, with
/// the operator and the bound as a literal.
pub proof fn law_bounds_stand_in_the_query(op: Seq<char>, at: Seq<char>)
    ensures
        time_bound(op, Some(at)) == " AND occurred_at "@ + op + " "@ + quoted(at),
        time_bound(op, None).len() == 0,
{
}

/// The names of steps stand in a query as literals, one behind another.
pub proof fn law_steps_stand_in_the_query(names: Seq<Seq<char>>, last: Seq<char>)
    ensures
        literal_list(seq![last]) == quoted(last),
        names.len() > 0 ==> literal_list(names.push(last)) == literal_list(names) + ", "@ + quoted(
            last,
        ),
{
    let literals = Seq::new(names.len(), |i: int| quoted(names[i]));
    let all = Seq::new(names.push(last).len(), |i: int| quoted(names.push(last)[i]));
    assert(all =~= literals.push(quoted(last)));
    law_joined_texts_stand_in_order(literals, quoted(last), ", "@);
    let one = Seq::new(1, |i: int| quoted(seq![last][i]));
    assert(one =~= seq![quoted(last)]);
}

/// A funnel's query asks for the events of users of its product that are among
/// its steps and, whenever these are given, not before `since` and before
/// `until`, ordered by user and time.
pub proof fn law_funnels_ask_within_their_bounds(
    product: Seq<char>,
    steps: Seq<Seq<char>>,
    since: Seq<char>,
    until: Seq<char>,
)
    ensures
        ({
            let head = "SELECT user_id, occurred_at, event FROM ("@ + USER_EVENTS_SQL@
                + ") AS user_events WHERE product = "@ + quoted(product) + " AND event IN ("@
                + literal_list(steps) + ")"@;
            let from = " AND occurred_at >= "@ + quoted(since);
            let to = " AND occurred_at < "@ + quoted(until);
            let order = " ORDER BY user_id, occurred_at"@;
            &&& funnel_query(product, steps, Some(since), Some(until)) == head + from + to + order
            &&& funnel_query(product, steps, Some(since), None) == head + from + order
            &&& funnel_query(product, steps, None, Some(until)) == head + to + order
            &&& funnel_query(product, steps, None, None) == head + order
        }),
{
    reveal_strlit(" AND occurred_at ");
    reveal_strlit(">=");
    reveal_strlit("<");
    reveal_strlit(" ");
    reveal_strlit(" AND occurred_at >= ");
    reveal_strlit(" AND occurred_at < ");
    let head = "SELECT user_id, occurred_at, event FROM ("@ + USER_EVENTS_SQL@
        + ") AS user_events WHERE product = "@ + quoted(product) + " AND event IN ("@
        + literal_list(steps) + ")"@;
    let from = " AND occurred_at >= "@ + quoted(since);
    let to = " AND occurred_at < "@ + quoted(until);
    let order = " ORDER BY user_id, occurred_at"@;
    assert(" AND occurred_at "@ + ">="@ + " "@ =~= " AND occurred_at >= "@);
    assert(" AND occurred_at "@ + "<"@ + " "@ =~= " AND occurred_at < "@);
    assert(head + Seq::<char>::empty() =~= head);
    assert(head + from + Seq::<char>::empty() =~= head + from);
}

/// Counts are those of the runs, in any order of the rows: one for each step,
/// the number of runs that get that far.
pub proof fn law_counts_are_those_of_runs(
    counts: Seq<u64>,
    rows: Seq<Row>,
    n_steps: nat,
    window: int,
)
    ensures
        is_counts(counts, rows, n_steps, window) <==> counts.len() == n_steps && forall|k: int|
            0 <= k < n_steps ==> #[trigger] counts[k] == runs_reaching(rows, 0, k + 1, window),
{
}

/// A row of the query stands for the step that its event is, with its user and
/// its time; one whose event is none of the steps, or whose time is not known,
/// stands for none.
pub proof fn law_rows_stand_for_their_steps(
    user: Seq<char>,
    ts: int,
    event: Seq<char>,
    steps: Seq<Seq<char>>,
    i: int,
)
    requires
        steps.no_duplicates(),
    ensures
        0 <= i < steps.len() && steps[i] == event ==> step_row(user, Some(ts), event, steps)
            == Some(Row { user, ts, step: i }),
        (forall|j: int| 0 <= j < steps.len() ==> #[trigger] steps[j] != event) ==> step_row(
            user,
            Some(ts),
            event,
            steps,
        ) is None,
        step_row(user, None, event, steps) is None,
{
    if 0 <= i < steps.len() && steps[i] == event {
        assert(steps.contains(event));
        assert(steps[steps.index_of(event)] == event);
    }
}

/// The events of users are those with a user's id, and those without one whose
/// anonymous id an identity of the same product ties to a user.
pub proof fn law_events_of_users_go_by_identity()
    ensures
        USER_EVENTS_SQL@
            == "SELECT product, user_id, occurred_at, event FROM events WHERE user_id <> ''"@
            + " UNION ALL SELECT e.product, l.user_id, e.occurred_at, e.event FROM events e"@
            + " JOIN identity_links l ON e.product = l.product AND e.anonymous_id = l.anonymous_id"@
            + " WHERE e.user_id = ''"@,
{
    reveal_strlit(
        "SELECT product, user_id, occurred_at, event FROM events WHERE user_id <> '' UNION ALL SELECT e.product, l.user_id, e.occurred_at, e.event FROM events e JOIN identity_links l ON e.product = l.product AND e.anonymous_id = l.anonymous_id WHERE e.user_id = ''",
    );
    reveal_strlit("SELECT product, user_id, occurred_at, event FROM events WHERE user_id <> ''");
    reveal_strlit(
        " UNION ALL SELECT e.product, l.user_id, e.occurred_at, e.event FROM events e",
    );
    reveal_strlit(
        " JOIN identity_links l ON e.product = l.product AND e.anonymous_id = l.anonymous_id",
    );
    reveal_strlit(" WHERE e.user_id = ''");
    assert(USER_EVENTS_SQL@
        =~= "SELECT product, user_id, occurred_at, event FROM events WHERE user_id <> ''"@
        + " UNION ALL SELECT e.product, l.user_id, e.occurred_at, e.event FROM events e"@
        + " JOIN identity_links l ON e.product = l.product AND e.anonymous_id = l.anonymous_id"@
        + " WHERE e.user_id = ''"@);
}

/// Whatever the rows, the steps and the window, as long as the rows are ordered
/// by user: there are counts exactly if the steps are two to ten different
/// events, and each is the number of users whose events hold a way through that
/// many steps within the window.
pub proof fn law_steps_are_counted_by_users(
    rows: &[TimedRow],
    steps: &[String],
    window: Window,
    r: Result<Vec<u64>, String>,
    k: int,
)
    requires
        call_ensures(count_steps, (rows, steps, window), r),
        forall|i: int, j: int|
            0 <= i < j < rows@.len() ==> (#[trigger] rows@[i]).user_id@ == (
            #[trigger] rows@[j]).user_id@ || lex_lt(rows@[i].user_id@, rows@[j].user_id@),
    ensures
        r is Ok <==> 2 <= steps@.len() <= 10 && (forall|i: int|
            0 <= i < steps@.len() ==> !is_blank((#[trigger] steps@[i])@)) && (forall|i: int, j: int|
            0 <= i < j < steps@.len() ==> (#[trigger] steps@[i])@ != (#[trigger] steps@[j])@),
        r matches Ok(counts) ==> counts@.len() == steps@.len() && (0 <= k < steps@.len() ==> ({
            let seen = Seq::new(
                rows@.len(),
                |i: int|
                    Seen {
                        user: rows@[i].user_id@,
                        millis: match rows@[i].millis {
                            Some(ms) => Some(ms as int),
                            None => None,
                        },
                        event: rows@[i].event@,
                    },
            );
            let most = 9_223_372_036_854_775_807int;
            let millis = if window.millis() <= most {
                window.millis()
            } else {
                most
            };
            let users = users_through(seen, texts(steps@), k + 1, millis);
            users.finite() && counts@[k] == users.len()
        })),
{
    let names = texts(steps@);
    law_funnels_have_different_steps(names);
    assert forall|i: int| 0 <= i < steps@.len() implies names[i] == (#[trigger] steps@[i])@ by {
    }
    if r is Ok && 0 <= k < steps@.len() {
        law_counts_are_users_who_got_through(rows@, names, r->Ok_0@, window, k);
    }
}

/// The same holds of the rows of the query, by the times that their texts stand
/// for.
pub proof fn law_funnels_are_computed_by_users(
    rows: &[EventRow],
    steps: &[String],
    window: Window,
    r: Result<Vec<u64>, String>,
    k: int,
)
    requires
        call_ensures(compute, (rows, steps, window), r),
        forall|i: int, j: int|
            0 <= i < j < rows@.len() ==> (#[trigger] rows@[i]).user_id@ == (
            #[trigger] rows@[j]).user_id@ || lex_lt(rows@[i].user_id@, rows@[j].user_id@),
    ensures
        r is Ok <==> 2 <= steps@.len() <= 10 && (forall|i: int|
            0 <= i < steps@.len() ==> !is_blank((#[trigger] steps@[i])@)) && (forall|i: int, j: int|
            0 <= i < j < steps@.len() ==> (#[trigger] steps@[i])@ != (#[trigger] steps@[j])@),
        r matches Ok(counts) ==> counts@.len() == steps@.len() && (0 <= k < steps@.len() ==> ({
            let seen = Seq::new(
                rows@.len(),
                |i: int|
                    Seen {
                        user: rows@[i].user_id@,
                        millis: match rfc3339_value(rows@[i].occurred_at@) {
                            Some(v) => Some(v.0 * 1000 + (v.1 as int) / 1_000_000),
                            None => None,
                        },
                        event: rows@[i].event@,
                    },
            );
            let most = 9_223_372_036_854_775_807int;
            let millis = if window.millis() <= most {
                window.millis()
            } else {
                most
            };
            let users = users_through(seen, texts(steps@), k + 1, millis);
            users.finite() && counts@[k] == users.len()
        })),
{
    let names = texts(steps@);
    law_funnels_have_different_steps(names);
    assert forall|i: int| 0 <= i < steps@.len() implies names[i] == (#[trigger] steps@[i])@ by {
    }
    if r is Ok && 0 <= k < steps@.len() {
        law_funnels_count_users_who_got_through(rows@, names, r->Ok_0@, window, k);
    }
}

/// A window that can be read is as many milliseconds long as its number of
/// units says.
pub proof fn law_windows_are_read(s: &str, r: Result<Window, String>, n: u64, unit: char)
    requires
        call_ensures(parse_window, (s,), r),
        s@ == decimal(n as nat).push(unit),
        n > 0,
    ensures
        unit == 'd' ==> (r matches Ok(w) && w.millis() == n * 86_400_000),
        unit == 'h' ==> (r matches Ok(w) && w.millis() == n * 3_600_000),
        unit == 'm' ==> (r matches Ok(w) && w.millis() == n * 60_000),
        unit == 's' ==> (r matches Ok(w) && w.millis() == n * 1_000),
        unit != 'd' && unit != 'h' && unit != 'm' && unit != 's' && !is_space(unit) ==> r is Err,
{
    let none = Seq::<char>::empty();
    assert(none + s@ + none =~= s@);
    if !is_space(unit) {
        law_windows_are_numbers_of_units(n, unit, none, none);
    }
}

/// A window is made with a number of seconds or of milliseconds, and tells its
/// milliseconds.
pub proof fn law_windows_tell_their_milliseconds(
    secs: u64,
    a: Window,
    millis: u64,
    b: Window,
    x: u128,
    y: u128,
)
    requires
        call_ensures(Window::from_secs, (secs,), a),
        call_ensures(Window::from_millis, (millis,), b),
        call_ensures(Window::as_millis, (&a,), x),
        call_ensures(Window::as_millis, (&b,), y),
    ensures
        x == secs * 1000,
        y == millis,
{
}

/// A funnel's query is made exactly if its steps are right, and holds its
/// product, its steps and its bounds, whenever these are given.
pub proof fn law_funnel_queries_hold_their_parameters(
    product: &str,
    steps: &[String],
    since: &Option<String>,
    until: &Option<String>,
    fault: Option<String>,
    r: Result<String, String>,
)
    requires
        call_ensures(check_steps, (steps,), fault),
        call_ensures(funnel_sql, (product, steps, since, until), r),
    ensures
        r is Ok <==> fault is None,
        r is Ok <==> 2 <= steps@.len() <= 10 && (forall|i: int|
            0 <= i < steps@.len() ==> !is_blank((#[trigger] steps@[i])@)) && (forall|i: int, j: int|
            0 <= i < j < steps@.len() ==> (#[trigger] steps@[i])@ != (#[trigger] steps@[j])@),
        r matches Err(e) ==> (fault matches Some(f) && f@ == e@),
        r matches Ok(sql) ==> ({
            let head = "SELECT user_id, occurred_at, event FROM ("@ + USER_EVENTS_SQL@
                + ") AS user_events WHERE product = "@ + quoted(product@) + " AND event IN ("@
                + literal_list(texts(steps@)) + ")"@;
            let from = match *since {
                Some(t) => " AND occurred_at >= "@ + quoted(t@),
                None => Seq::empty(),
            };
            let to = match *until {
                Some(t) => " AND occurred_at < "@ + quoted(t@),
                None => Seq::empty(),
            };
            sql@ == head + from + to + " ORDER BY user_id, occurred_at"@
        }),
{
    let names = texts(steps@);
    law_funnels_have_different_steps(names);
    assert forall|i: int| 0 <= i < steps@.len() implies names[i] == (#[trigger] steps@[i])@ by {
    }
    let a = match *since {
        Some(t) => t@,
        None => Seq::empty(),
    };
    let b = match *until {
        Some(t) => t@,
        None => Seq::empty(),
    };
    law_funnels_ask_within_their_bounds(product@, names, a, b);
    let head = "SELECT user_id, occurred_at, event FROM ("@ + USER_EVENTS_SQL@
        + ") AS user_events WHERE product = "@ + quoted(product@) + " AND event IN ("@
        + literal_list(names) + ")"@;
    let from = " AND occurred_at >= "@ + quoted(a);
    assert(head + Seq::<char>::empty() =~= head);
    assert(head + from + Seq::<char>::empty() =~= head + from);
    assert(head + Seq::<char>::empty() + Seq::<char>::empty() =~= head);
}

} // verus!
