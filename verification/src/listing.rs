//! The list of the sealed log files of a directory: in the order of their
//! names, with those that hold a time of sealing oldest first.
use vstd::multiset::Multiset;
use vstd::prelude::*;
use vstd::relations::{sorted_by, total_ordering};

use crate::seal::{has_time, holds_time, is_sealed_name, law_names_hold_their_time};
use crate::seal::{law_sealed_order_is_total, seal_time, sealed_before, sealed_name};
use crate::seal::was_sealed_before;
use crate::text::{copy_text, ends_with, strip_prefix, text_before, texts};
use crate::text::{law_text_order_is_total, law_text_order_is_transitive, lex_lt};
use crate::wal::{is_next_name, is_next_time};

verus! {

/// The order of texts.
pub open spec fn by_text() -> spec_fn(Seq<char>, Seq<char>) -> bool {
    |a: Seq<char>, b: Seq<char>| !lex_lt(b, a)
}

/// The order of the times of sealing.
pub open spec fn by_time() -> spec_fn(Seq<char>, Seq<char>) -> bool {
    |a: Seq<char>, b: Seq<char>| !sealed_before(b, a)
}

/// The sealed files among files.
pub open spec fn sealed_of(names: Seq<Seq<char>>) -> Seq<Seq<char>> {
    names.filter(|n: Seq<char>| is_sealed_name(n))
}

/// The names among names that hold a time.
pub open spec fn timed(names: Seq<Seq<char>>) -> Seq<Seq<char>> {
    names.filter(|n: Seq<char>| holds_time(n))
}

/// Names with those that hold a time replaced, one after the other, by the
/// given ones.
pub open spec fn refilled(names: Seq<Seq<char>>, times: Seq<Seq<char>>) -> Seq<Seq<char>>
    decreases names.len(),
{
    if names.len() == 0 {
        Seq::empty()
    } else if holds_time(names.last()) {
        refilled(names.drop_last(), times.drop_last()).push(times.last())
    } else {
        refilled(names.drop_last(), times).push(names.last())
    }
}

/// Whether names and times are those that the list of sealed files is made
/// of: all of them in the order of texts, and those that hold a time oldest
/// first.
pub open spec fn are_sorted(
    sealed: Seq<Seq<char>>,
    text_order: Seq<Seq<char>>,
    time_order: Seq<Seq<char>>,
) -> bool {
    &&& sorted_by(text_order, by_text())
    &&& text_order.to_multiset() == sealed.to_multiset()
    &&& sorted_by(time_order, by_time())
    &&& time_order.to_multiset() == timed(sealed).to_multiset()
}

/// Whether a list is that of the sealed files among files with the given
/// names: all of them in the order of texts, but those that hold a time change
/// places among themselves so that the oldest comes first.
pub open spec fn is_listing(list: Seq<Seq<char>>, names: Seq<Seq<char>>) -> bool {
    exists|text_order: Seq<Seq<char>>, time_order: Seq<Seq<char>>| #[trigger]
        are_sorted(sealed_of(names), text_order, time_order) && list == refilled(
            text_order,
            time_order,
        )
}

proof fn lemma_text_order()
    ensures
        total_ordering(by_text()),
{
    let leq = by_text();
    assert forall|x: Seq<char>, y: Seq<char>, z: Seq<char>| #[trigger]
        leq(x, y) && #[trigger] leq(y, z) implies leq(x, z) by {
        law_text_order_is_total(x, y);
        law_text_order_is_total(y, z);
        law_text_order_is_total(z, x);
        if lex_lt(z, x) && lex_lt(x, y) {
            law_text_order_is_transitive(z, x, y);
        }
    }
    assert forall|x: Seq<char>, y: Seq<char>| #[trigger] leq(x, y) && #[trigger] leq(
        y,
        x,
    ) implies x == y by {
        law_text_order_is_total(x, y);
    }
    assert forall|x: Seq<char>, y: Seq<char>| #[trigger] leq(x, y) || #[trigger] leq(y, x) by {
        law_text_order_is_total(x, y);
    }
    assert forall|x: Seq<char>| #[trigger] leq(x, x) by {
        law_text_order_is_total(x, x);
    }
}

proof fn lemma_time_order()
    ensures
        total_ordering(by_time()),
{
    let leq = by_time();
    assert forall|x: Seq<char>, y: Seq<char>, z: Seq<char>| #[trigger]
        leq(x, y) && #[trigger] leq(y, z) implies leq(x, z) by {
        law_sealed_order_is_total(z, x, y);
        law_sealed_order_is_total(x, y, z);
        law_sealed_order_is_total(y, z, x);
    }
    assert forall|x: Seq<char>, y: Seq<char>| #[trigger] leq(x, y) && #[trigger] leq(
        y,
        x,
    ) implies x == y by {
        law_sealed_order_is_total(x, y, y);
    }
    assert forall|x: Seq<char>, y: Seq<char>| #[trigger] leq(x, y) || #[trigger] leq(y, x) by {
        law_sealed_order_is_total(x, y, y);
    }
    assert forall|x: Seq<char>| #[trigger] leq(x, x) by {
        law_sealed_order_is_total(x, x, x);
    }
}

/// A name in place among names that are in order.
proof fn lemma_in_place(
    names: Seq<Seq<char>>,
    at: int,
    name: Seq<char>,
    leq: spec_fn(Seq<char>, Seq<char>) -> bool,
)
    requires
        total_ordering(leq),
        sorted_by(names, leq),
        0 <= at <= names.len(),
        forall|i: int| 0 <= i < at ==> leq(#[trigger] names[i], name),
        at < names.len() ==> leq(name, names[at]),
    ensures
        sorted_by(names.insert(at, name), leq),
        names.insert(at, name).to_multiset() == names.to_multiset().insert(name),
{
    let more = names.insert(at, name);
    assert forall|i: int, j: int| 0 <= i < j < more.len() implies #[trigger] leq(
        more[i],
        more[j],
    ) by {
        if i == at {
            let next = names[j - 1];
            assert(more[j] == next);
            if j - 1 > at {
                assert(leq(names[at], next));
            }
        } else {
            let a = if i < at {
                i
            } else {
                i - 1
            };
            assert(more[i] == names[a]);
            if j != at {
                let b = if j < at {
                    j
                } else {
                    j - 1
                };
                assert(more[j] == names[b]);
                assert(leq(names[a], names[b]));
            }
        }
    }
    assert(more.remove(at) =~= names);
    vstd::seq_lib::to_multiset_remove(more, at);
    more.to_multiset_ensures();
    assert(more.contains(more[at]));
    assert(more.to_multiset() =~= names.to_multiset().insert(name));
}

/// The order of texts, or that of the times of sealing.
spec fn order_of(times: bool) -> spec_fn(Seq<char>, Seq<char>) -> bool {
    if times {
        by_time()
    } else {
        by_text()
    }
}

fn goes_before(a: &str, b: &str, times: bool) -> (r: bool)
    ensures
        r == !order_of(times)(b@, a@),
{
    if times {
        was_sealed_before(a, b)
    } else {
        text_before(a, b)
    }
}

fn insert_in_order(names: &mut Vec<String>, name: &str, times: bool)
    requires
        sorted_by(texts(old(names)@), order_of(times)),
    ensures
        sorted_by(texts(final(names)@), order_of(times)),
        texts(final(names)@).to_multiset() == texts(old(names)@).to_multiset().insert(name@),
{
    let ghost all = texts(names@);
    let ghost leq = order_of(times);
    let mut at: usize = 0;
    while at < names.len() && !goes_before(name, names[at].as_str(), times)
        invariant
            at <= names.len(),
            all == texts(names@),
            leq == order_of(times),
            forall|i: int| 0 <= i < at ==> leq(#[trigger] all[i], name@),
        decreases names.len() - at,
    {
        at += 1;
    }
    proof {
        lemma_text_order();
        lemma_time_order();
        if at < names.len() {
            law_text_order_is_total(name@, all[at as int]);
            law_sealed_order_is_total(name@, all[at as int], name@);
        }
        lemma_in_place(all, at as int, name@, leq);
    }
    names.insert(at, copy_text(name));
    proof {
        assert(texts(names@) =~= all.insert(at as int, name@));
    }
}

/// To select elements and to forget their order can be done in either order.
proof fn lemma_filter_multiset(names: Seq<Seq<char>>, p: spec_fn(Seq<char>) -> bool)
    ensures
        names.filter(p).to_multiset() == names.to_multiset().filter(p),
    decreases names.len(),
{
    broadcast use vstd::multiset::group_multiset_axioms;

    reveal(Seq::filter);
    if names.len() == 0 {
        names.to_multiset_ensures();
        assert(names =~= Seq::<Seq<char>>::empty());
        assert(names.filter(p) =~= Seq::<Seq<char>>::empty());
        assert(names.to_multiset().filter(p) =~= names.to_multiset()) by {
            assert(names.to_multiset().len() == 0);
        }
    } else {
        let front = names.drop_last();
        let last = names.last();
        lemma_filter_multiset(front, p);
        assert(front.push(last) =~= names);
        vstd::seq_lib::to_multiset_build(front, last);
        vstd::seq_lib::to_multiset_build(front.filter(p), last);
        assert(names.filter(p).to_multiset() =~= names.to_multiset().filter(p));
    }
}

/// As many names hold a time in either order.
proof fn lemma_same_count(sealed: Seq<Seq<char>>, s: Seq<Seq<char>>, t: Seq<Seq<char>>)
    requires
        are_sorted(sealed, s, t),
    ensures
        t.len() == timed(s).len(),
        t.to_multiset() == timed(s).to_multiset(),
        forall|i: int| 0 <= i < t.len() ==> holds_time(#[trigger] t[i]),
{
    let p = |n: Seq<char>| holds_time(n);
    lemma_filter_multiset(sealed, p);
    lemma_filter_multiset(s, p);
    t.to_multiset_ensures();
    timed(s).to_multiset_ensures();
    assert forall|i: int| 0 <= i < t.len() implies holds_time(#[trigger] t[i]) by {
        assert(t.contains(t[i]));
        lemma_same_elements(t, timed(s), t[i]);
        s.lemma_filter_pred(p, timed(s).index_of(t[i]));
    }
}

/// The names of the sealed files among the names of a directory's files, oldest
/// first.
pub fn sealed_files(names: &[String]) -> (r: Vec<String>)
    ensures
        is_listing(texts(r@), texts(names@)),
{
    let ghost all = texts(names@);
    let ghost p = |n: Seq<char>| is_sealed_name(n);
    let ghost q = |n: Seq<char>| holds_time(n);
    let mut text_order: Vec<String> = Vec::new();
    let mut time_order: Vec<String> = Vec::new();
    let mut i: usize = 0;
    proof {
        reveal(Seq::filter);
        assert(all.take(0).filter(p) =~= texts(text_order@));
        assert(all.take(0).filter(p).filter(q) =~= texts(time_order@));
    }
    while i < names.len()
        invariant
            i <= names.len(),
            all == texts(names@),
            p == (|n: Seq<char>| is_sealed_name(n)),
            q == (|n: Seq<char>| holds_time(n)),
            are_sorted(all.take(i as int).filter(p), texts(text_order@), texts(time_order@)),
        decreases names.len() - i,
    {
        let ghost before = all.take(i as int).filter(p);
        let ghost name = all[i as int];
        proof {
            reveal(Seq::filter);
            assert(all.take(i + 1).drop_last() =~= all.take(i as int));
            assert(all.take(i + 1).last() == name);
            assert(before.push(name).drop_last() =~= before);
            vstd::seq_lib::to_multiset_build(before, name);
            vstd::seq_lib::to_multiset_build(before.filter(q), name);
        }
        let name = names[i].as_str();
        if strip_prefix(name, "sealed-").is_some() && ends_with(name, ".ndjson") {
            insert_in_order(&mut text_order, name, false);
            if has_time(name) {
                insert_in_order(&mut time_order, name, true);
            }
        }
        i += 1;
    }
    proof {
        assert(all.take(i as int) =~= all);
        lemma_same_count(sealed_of(all), texts(text_order@), texts(time_order@));
    }
    refill(text_order.as_slice(), time_order.as_slice())
}

fn refill(names: &[String], times: &[String]) -> (r: Vec<String>)
    requires
        times@.len() == timed(texts(names@)).len(),
    ensures
        texts(r@) == refilled(texts(names@), texts(times@)),
{
    let ghost s = texts(names@);
    let ghost t = texts(times@);
    let ghost q = |n: Seq<char>| holds_time(n);
    let mut r: Vec<String> = Vec::new();
    let mut i: usize = 0;
    let mut k: usize = 0;
    proof {
        reveal(Seq::filter);
        assert(s.take(0) =~= Seq::<Seq<char>>::empty());
        assert(texts(r@) =~= refilled(s.take(0), t.take(0)));
    }
    while i < names.len()
        invariant
            i <= names.len(),
            s == texts(names@),
            t == texts(times@),
            q == (|n: Seq<char>| holds_time(n)),
            t.len() == s.filter(q).len(),
            k <= times.len(),
            k == s.take(i as int).filter(q).len(),
            texts(r@) == refilled(s.take(i as int), t.take(k as int)),
        decreases names.len() - i,
    {
        let ghost before = r@;
        proof {
            let next = s.take(i + 1);
            assert(next.drop_last() =~= s.take(i as int));
            assert(next.last() == s[i as int]);
            assert(s =~= next + s.skip(i + 1));
            Seq::filter_distributes_over_add(next, s.skip(i + 1), q);
            reveal(Seq::filter);
        }
        if has_time(names[i].as_str()) {
            r.push(copy_text(times[k].as_str()));
            proof {
                assert(t.take(k + 1).drop_last() =~= t.take(k as int));
                assert(t.take(k + 1).last() == t[k as int]);
                assert(texts(r@) =~= texts(before).push(t[k as int]));
            }
            k += 1;
        } else {
            r.push(copy_text(names[i].as_str()));
            proof {
                assert(texts(r@) =~= texts(before).push(s[i as int]));
            }
        }
        i += 1;
    }
    proof {
        assert(s.take(i as int) =~= s);
        assert(t.take(k as int) =~= t);
    }
    r
}

/// Sequences with the same elements hold the same.
proof fn lemma_same_elements(a: Seq<Seq<char>>, b: Seq<Seq<char>>, x: Seq<char>)
    requires
        a.to_multiset() == b.to_multiset(),
    ensures
        a.contains(x) == b.contains(x),
{
    a.to_multiset_ensures();
    b.to_multiset_ensures();
    assert(a.contains(x) <==> a.to_multiset().count(x) > 0);
    assert(b.contains(x) <==> b.to_multiset().count(x) > 0);
}

/// What a list is made of does not depend on the order of the directory.
proof fn lemma_sorted_once(
    a: Seq<Seq<char>>,
    b: Seq<Seq<char>>,
    s: Seq<Seq<char>>,
    t: Seq<Seq<char>>,
    u: Seq<Seq<char>>,
    v: Seq<Seq<char>>,
)
    requires
        a.to_multiset() == b.to_multiset(),
        are_sorted(a, s, t),
        are_sorted(b, u, v),
    ensures
        s == u,
        t == v,
{
    let q = |n: Seq<char>| holds_time(n);
    lemma_filter_multiset(a, q);
    lemma_filter_multiset(b, q);
    lemma_text_order();
    lemma_time_order();
    vstd::seq_lib::lemma_sorted_unique(s, u, by_text());
    vstd::seq_lib::lemma_sorted_unique(t, v, by_time());
}

/// There is one list of the sealed files, in whatever order the directory has
/// them: listing them again, with nothing sealed in between, gives it again.
pub proof fn law_listing_is_unique(
    a: Seq<Seq<char>>,
    b: Seq<Seq<char>>,
    names: Seq<Seq<char>>,
    again: Seq<Seq<char>>,
)
    requires
        names.to_multiset() == again.to_multiset(),
        is_listing(a, names),
        is_listing(b, again),
    ensures
        a == b,
{
    let p = |n: Seq<char>| is_sealed_name(n);
    lemma_filter_multiset(names, p);
    lemma_filter_multiset(again, p);
    let (s, t) = choose|s: Seq<Seq<char>>, t: Seq<Seq<char>>| #[trigger]
        are_sorted(sealed_of(names), s, t) && a == refilled(s, t);
    let (u, v) = choose|s: Seq<Seq<char>>, t: Seq<Seq<char>>| #[trigger]
        are_sorted(sealed_of(again), s, t) && b == refilled(s, t);
    lemma_sorted_once(sealed_of(names), sealed_of(again), s, t, u, v);
}

proof fn lemma_more(
    a: Multiset<Seq<char>>,
    b: Multiset<Seq<char>>,
    c: Multiset<Seq<char>>,
    d: Multiset<Seq<char>>,
    x: Seq<char>,
    y: Seq<char>,
)
    requires
        a.add(b) == c.add(d),
    ensures
        a.insert(x).add(b.insert(y)) == c.insert(y).add(d.insert(x)),
        a.insert(x).add(b) == c.insert(x).add(d),
{
    broadcast use vstd::multiset::group_multiset_axioms;

    assert forall|z: Seq<char>| #[trigger] a.count(z) + b.count(z) == c.count(z) + d.count(z) by {
        assert(a.add(b).count(z) == a.count(z) + b.count(z));
        assert(c.add(d).count(z) == c.count(z) + d.count(z));
    }
    assert(a.insert(x).add(b.insert(y)) =~= c.insert(y).add(d.insert(x)));
    assert(a.insert(x).add(b) =~= c.insert(x).add(d));
}

/// Refilling changes the names that hold a time, and those alone.
proof fn lemma_refilled(s: Seq<Seq<char>>, t: Seq<Seq<char>>)
    requires
        t.len() == timed(s).len(),
        forall|i: int| 0 <= i < t.len() ==> holds_time(#[trigger] t[i]),
    ensures
        timed(refilled(s, t)) == t,
        refilled(s, t).len() == s.len(),
        refilled(s, t).to_multiset().add(timed(s).to_multiset()) == s.to_multiset().add(
            t.to_multiset(),
        ),
    decreases s.len(),
{
    broadcast use vstd::multiset::group_multiset_axioms;

    reveal(Seq::filter);
    let r = refilled(s, t);
    if s.len() == 0 {
        assert(t =~= Seq::<Seq<char>>::empty());
        assert(s =~= Seq::<Seq<char>>::empty());
        assert(timed(r) =~= t);
    } else {
        let front = s.drop_last();
        let last = s.last();
        assert(front.push(last) =~= s);
        vstd::seq_lib::to_multiset_build(front, last);
        if holds_time(last) {
            let less = t.drop_last();
            assert forall|i: int| 0 <= i < less.len() implies holds_time(#[trigger] less[i]) by {
                assert(less[i] == t[i]);
            }
            lemma_refilled(front, less);
            let rest = refilled(front, less);
            assert(holds_time(t[t.len() - 1]));
            assert(r.drop_last() =~= rest);
            assert(less.push(t.last()) =~= t);
            vstd::seq_lib::to_multiset_build(rest, t.last());
            vstd::seq_lib::to_multiset_build(less, t.last());
            vstd::seq_lib::to_multiset_build(timed(front), last);
            assert(timed(r) =~= t);
            assert(timed(s) =~= timed(front).push(last));
            lemma_more(
                rest.to_multiset(),
                timed(front).to_multiset(),
                front.to_multiset(),
                less.to_multiset(),
                t.last(),
                last,
            );
        } else {
            lemma_refilled(front, t);
            let rest = refilled(front, t);
            assert(r.drop_last() =~= rest);
            vstd::seq_lib::to_multiset_build(rest, last);
            assert(timed(r) =~= t);
            assert(timed(s) =~= timed(front));
            lemma_more(
                rest.to_multiset(),
                timed(front).to_multiset(),
                front.to_multiset(),
                t.to_multiset(),
                last,
                last,
            );
        }
    }
}

/// A list has the elements of the sealed files.
proof fn lemma_listing(list: Seq<Seq<char>>, names: Seq<Seq<char>>) -> (w: (
    Seq<Seq<char>>,
    Seq<Seq<char>>,
))
    requires
        is_listing(list, names),
    ensures
        are_sorted(sealed_of(names), w.0, w.1),
        list == refilled(w.0, w.1),
        timed(list) == w.1,
        list.to_multiset() == sealed_of(names).to_multiset(),
{
    broadcast use vstd::multiset::group_multiset_axioms;

    let (s, t) = choose|s: Seq<Seq<char>>, t: Seq<Seq<char>>| #[trigger]
        are_sorted(sealed_of(names), s, t) && list == refilled(s, t);
    lemma_same_count(sealed_of(names), s, t);
    lemma_refilled(s, t);
    assert(list.to_multiset() =~= s.to_multiset()) by {
        let extra = t.to_multiset();
        assert forall|x: Seq<char>| #[trigger] list.to_multiset().count(x)
            == s.to_multiset().count(x) by {
            assert(list.to_multiset().add(extra).count(x) == s.to_multiset().add(extra).count(x));
        }
    }
    (s, t)
}

/// What is selected keeps its order.
proof fn lemma_selected_in_order(l: Seq<Seq<char>>, i: int, j: int)
    requires
        sorted_by(timed(l), by_time()),
        0 <= i < j < l.len(),
        holds_time(l[i]),
        holds_time(l[j]),
    ensures
        by_time()(l[i], l[j]),
    decreases l.len(),
{
    reveal(Seq::filter);
    let leq = by_time();
    let q = |n: Seq<char>| holds_time(n);
    let front = l.drop_last();
    let kept = timed(front);
    if j < front.len() {
        assert forall|a: int, b: int| 0 <= a < b < kept.len() implies #[trigger] leq(
            kept[a],
            kept[b],
        ) by {
            assert(timed(l)[a] == kept[a] && timed(l)[b] == kept[b]);
            assert(leq(timed(l)[a], timed(l)[b]));
        }
        lemma_selected_in_order(front, i, j);
    } else {
        assert(timed(l) == kept.push(l.last()));
        assert(front[i] == l[i]);
        front.lemma_filter_contains(q, i);
        let a = kept.index_of(l[i]);
        assert(timed(l)[a] == l[i]);
        assert(timed(l)[kept.len() as int] == l[j]);
        assert(leq(timed(l)[a], timed(l)[kept.len() as int]));
    }
}

/// Of two files on the list that hold a time, the one that stands first was
/// not sealed later.
pub proof fn law_listing_is_oldest_first(
    list: Seq<Seq<char>>,
    names: Seq<Seq<char>>,
    i: int,
    j: int,
)
    requires
        is_listing(list, names),
        0 <= i < j < list.len(),
        holds_time(list[i]),
        holds_time(list[j]),
    ensures
        seal_time(list[i])->0 <= seal_time(list[j])->0,
{
    let w = lemma_listing(list, names);
    lemma_selected_in_order(list, i, j);
}

/// Where the order of texts is oldest first already, as it is where the times
/// have the same number of digits, the list is in the order of texts.
pub proof fn law_listing_keeps_the_order_of_texts(
    list: Seq<Seq<char>>,
    names: Seq<Seq<char>>,
    sorted: Seq<Seq<char>>,
)
    requires
        is_listing(list, names),
        sorted_by(sorted, by_text()),
        sorted.to_multiset() == sealed_of(names).to_multiset(),
        forall|i: int, j: int|
            0 <= i < j < sorted.len() && holds_time(#[trigger] sorted[i]) && holds_time(
                #[trigger] sorted[j],
            ) ==> seal_time(sorted[i])->0 <= seal_time(sorted[j])->0,
    ensures
        list == sorted,
{
    let (s, t) = lemma_listing(list, names);
    lemma_text_order();
    vstd::seq_lib::lemma_sorted_unique(s, sorted, by_text());
    lemma_same_count(sealed_of(names), s, t);
    lemma_selection_sorted(s);
    lemma_time_order();
    vstd::seq_lib::lemma_sorted_unique(t, timed(s), by_time());
    lemma_refilled_same(s);
}

proof fn lemma_selection_sorted(s: Seq<Seq<char>>)
    requires
        forall|i: int, j: int|
            0 <= i < j < s.len() && holds_time(#[trigger] s[i]) && holds_time(#[trigger] s[j])
                ==> seal_time(s[i])->0 <= seal_time(s[j])->0,
    ensures
        sorted_by(timed(s), by_time()),
    decreases s.len(),
{
    reveal(Seq::filter);
    let q = |n: Seq<char>| holds_time(n);
    let leq = by_time();
    if s.len() > 0 {
        let front = s.drop_last();
        let last = s[s.len() - 1];
        assert forall|i: int, j: int|
            0 <= i < j < front.len() && holds_time(#[trigger] front[i]) && holds_time(
                #[trigger] front[j],
            ) implies seal_time(front[i])->0 <= seal_time(front[j])->0 by {
            assert(front[i] == s[i] && front[j] == s[j]);
        }
        lemma_selection_sorted(front);
        let kept = timed(front);
        let all = timed(s);
        assert forall|a: int, b: int| 0 <= a < b < all.len() implies #[trigger] leq(
            all[a],
            all[b],
        ) by {
            if b < kept.len() {
                assert(leq(kept[a], kept[b]));
            } else {
                assert(kept.contains(kept[a]));
                front.lemma_filter_pred(q, a);
                front.lemma_filter_contains_rev(q, kept[a]);
                let i = front.index_of(kept[a]);
                assert(s[i] == kept[a]);
                assert(all[b] == last);
                assert(seal_time(s[i])->0 <= seal_time(s[s.len() - 1])->0);
            }
        }
    }
}

proof fn lemma_refilled_same(s: Seq<Seq<char>>)
    ensures
        refilled(s, timed(s)) == s,
    decreases s.len(),
{
    reveal(Seq::filter);
    if s.len() > 0 {
        let front = s.drop_last();
        lemma_refilled_same(front);
        assert(front.push(s.last()) =~= s);
        if holds_time(s.last()) {
            assert(timed(s).drop_last() =~= timed(front));
        }
    }
}

/// A file that is sealed comes last among the listed files that hold a time;
/// the files before it stay where they are. Where all of them hold a time, the
/// new list is the old one and that file.
pub proof fn law_sealed_file_is_listed_last(
    names: Seq<Seq<char>>,
    name: Seq<char>,
    millis: int,
    before: Seq<Seq<char>>,
    after: Seq<Seq<char>>,
)
    requires
        is_next_name(name, millis, names),
        is_listing(before, names),
        is_listing(after, names.push(name)),
    ensures
        timed(after) == timed(before).push(name),
        (forall|i: int| 0 <= i < before.len() ==> holds_time(#[trigger] before[i])) ==> after
            == before.push(name),
{
    let q = |n: Seq<char>| holds_time(n);
    let leq = by_time();
    let m = choose|m: int|
        m >= millis && name == #[trigger] sealed_name(m) && is_next_time(m, millis, names);
    law_names_hold_their_time(m);
    reveal(Seq::filter);
    assert(names.push(name).drop_last() =~= names);
    let kept = sealed_of(names);
    assert(sealed_of(names.push(name)) =~= kept.push(name));
    assert(kept.push(name).drop_last() =~= kept);
    assert(timed(kept.push(name)) =~= timed(kept).push(name));
    let (s, t) = lemma_listing(before, names);
    let (u, v) = lemma_listing(after, names.push(name));
    vstd::seq_lib::to_multiset_build(timed(kept), name);
    vstd::seq_lib::to_multiset_build(t, name);
    let more = t.push(name);
    assert forall|i: int, j: int| 0 <= i < j < more.len() implies #[trigger] leq(
        more[i],
        more[j],
    ) by {
        assert(more[i] == t[i]);
        if j == t.len() {
            let old = t[i];
            assert(t.contains(old));
            lemma_same_elements(t, timed(kept), old);
            kept.lemma_filter_contains_rev(q, old);
            names.lemma_filter_contains_rev(|n: Seq<char>| is_sealed_name(n), old);
            kept.lemma_filter_pred(q, timed(kept).index_of(old));
            let k = seal_time(old)->0;
            assert(names.contains(sealed_name(k)));
        } else {
            assert(more[j] == t[j]);
            assert(leq(t[i], t[j]));
        }
    }
    lemma_time_order();
    vstd::seq_lib::lemma_sorted_unique(v, more, leq);
    if forall|i: int| 0 <= i < before.len() ==> holds_time(#[trigger] before[i]) {
        lemma_all_timed(before);
        vstd::seq_lib::to_multiset_build(kept, name);
        vstd::seq_lib::to_multiset_build(before, name);
        assert forall|i: int| 0 <= i < after.len() implies holds_time(#[trigger] after[i]) by {
            assert(after.contains(after[i]));
            lemma_same_elements(after, before.push(name), after[i]);
            let k = before.push(name).index_of(after[i]);
            if k < before.len() {
                assert(before[k] == after[i]);
            }
        }
        lemma_all_timed(after);
    }
}

proof fn lemma_all_timed(l: Seq<Seq<char>>)
    requires
        forall|i: int| 0 <= i < l.len() ==> holds_time(#[trigger] l[i]),
    ensures
        timed(l) == l,
    decreases l.len(),
{
    reveal(Seq::filter);
    if l.len() > 0 {
        let front = l.drop_last();
        assert forall|i: int| 0 <= i < front.len() implies holds_time(#[trigger] front[i]) by {
            assert(front[i] == l[i]);
        }
        lemma_all_timed(front);
        assert(holds_time(l[l.len() - 1]));
        assert(front.push(l.last()) =~= l);
    }
}

/// The list has every sealed file once, where a directory has no name twice.
pub proof fn law_listing_has_every_file_once(
    list: Seq<Seq<char>>,
    names: Seq<Seq<char>>,
    name: Seq<char>,
)
    requires
        is_listing(list, names),
        names.no_duplicates(),
    ensures
        list.contains(name) <==> names.contains(name) && is_sealed_name(name),
        list.no_duplicates(),
{
    let p = |n: Seq<char>| is_sealed_name(n);
    let kept = sealed_of(names);
    let w = lemma_listing(list, names);
    lemma_same_elements(list, kept, name);
    if list.contains(name) {
        names.lemma_filter_contains_rev(p, name);
        names.lemma_filter_pred(p, kept.index_of(name));
    }
    if names.contains(name) && is_sealed_name(name) {
        names.lemma_filter_contains(p, names.index_of(name));
    }
    lemma_filter_keeps_distinct(names, p);
    kept.lemma_multiset_has_no_duplicates();
    list.lemma_multiset_has_no_duplicates_conv();
}

proof fn lemma_filter_keeps_distinct(names: Seq<Seq<char>>, p: spec_fn(Seq<char>) -> bool)
    requires
        names.no_duplicates(),
    ensures
        names.filter(p).no_duplicates(),
    decreases names.len(),
{
    reveal(Seq::filter);
    if names.len() > 0 {
        let front = names.drop_last();
        let last = names[names.len() - 1];
        lemma_filter_keeps_distinct(front, p);
        let kept = front.filter(p);
        if kept.contains(last) {
            front.lemma_filter_contains_rev(p, last);
            let i = front.index_of(last);
            assert(names[i] == last);
        }
        let all = names.filter(p);
        assert forall|i: int, j: int|
            0 <= i < all.len() && 0 <= j < all.len() && i != j implies all[i] != all[j] by {
            if i < kept.len() {
                assert(all[i] == kept[i] && kept.contains(kept[i]));
            }
            if j < kept.len() {
                assert(all[j] == kept[j] && kept.contains(kept[j]));
            }
        }
    }
}

proof fn lemma_refilled_at(s: Seq<Seq<char>>, t: Seq<Seq<char>>, i: int)
    requires
        t.len() == timed(s).len(),
        forall|j: int| 0 <= j < t.len() ==> holds_time(#[trigger] t[j]),
        0 <= i < s.len(),
    ensures
        refilled(s, t).len() == s.len(),
        holds_time(refilled(s, t)[i]) == holds_time(s[i]),
        !holds_time(s[i]) ==> refilled(s, t)[i] == s[i],
    decreases s.len(),
{
    reveal(Seq::filter);
    lemma_refilled(s, t);
    let front = s.drop_last();
    let less = if holds_time(s.last()) {
        t.drop_last()
    } else {
        t
    };
    assert(less.len() == timed(front).len());
    assert forall|j: int| 0 <= j < less.len() implies holds_time(#[trigger] less[j]) by {
        assert(less[j] == t[j]);
    }
    lemma_refilled(front, less);
    if i < front.len() {
        lemma_refilled_at(front, less, i);
        assert(front[i] == s[i]);
        assert(refilled(s, t)[i] == refilled(front, less)[i]);
    } else if holds_time(s.last()) {
        assert(holds_time(t[t.len() - 1]));
    }
}

/// The list has the sealed files in the order of their names, character by
/// character, but for those that hold a time: where the order of names has one
/// of those, the list has one of them too.
pub proof fn law_other_files_are_listed_by_name(
    list: Seq<Seq<char>>,
    names: Seq<Seq<char>>,
    sorted: Seq<Seq<char>>,
    i: int,
)
    requires
        is_listing(list, names),
        forall|a: int, b: int|
            0 <= a < b < sorted.len() ==> !lex_lt(#[trigger] sorted[b], #[trigger] sorted[a]),
        sorted.to_multiset() == names.filter(|n: Seq<char>| is_sealed_name(n)).to_multiset(),
        0 <= i < sorted.len(),
    ensures
        list.len() == sorted.len(),
        holds_time(list[i]) <==> holds_time(sorted[i]),
        !holds_time(sorted[i]) ==> list[i] == sorted[i],
{
    let (s, t) = lemma_listing(list, names);
    lemma_text_order();
    let leq = by_text();
    assert forall|a: int, b: int| 0 <= a < b < sorted.len() implies #[trigger] leq(
        sorted[a],
        sorted[b],
    ) by {
        assert(!lex_lt(sorted[b], sorted[a]));
    }
    vstd::seq_lib::lemma_sorted_unique(s, sorted, by_text());
    lemma_same_count(sealed_of(names), s, t);
    lemma_refilled_at(s, t, i);
}

/// The sealed files of a directory are listed all of them, each once, and those
/// that hold a time oldest first.
pub proof fn law_sealed_files_are_listed(
    names: &[String],
    r: Vec<String>,
    name: Seq<char>,
    i: int,
    j: int,
    a: int,
    b: int,
)
    requires
        call_ensures(sealed_files, (names,), r),
        texts(names@).no_duplicates(),
    ensures
        texts(r@).contains(name) <==> texts(names@).contains(name) && is_sealed_name(name),
        texts(r@).no_duplicates(),
        0 <= i < j < r@.len() && r@[i]@ == sealed_name(a) && r@[j]@ == sealed_name(b) ==> a < b,
{
    let list = texts(r@);
    law_listing_has_every_file_once(list, texts(names@), name);
    if 0 <= i < j < r@.len() && r@[i]@ == sealed_name(a) && r@[j]@ == sealed_name(b) {
        law_names_hold_their_time(a);
        law_names_hold_their_time(b);
        assert(list[i] == sealed_name(a) && list[j] == sealed_name(b));
        law_listing_is_oldest_first(list, texts(names@), i, j);
        assert(list[i] != list[j]);
    }
}

} // verus!
