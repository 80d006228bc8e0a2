//! The configuration, read from environment variables.
use vstd::prelude::*;
use vstd::utf8::encode_utf8;

use crate::event::{all_product_chars, has_product_chars, is_product_char};
use crate::query::{joined, law_joined_texts_stand_in_order};
use crate::text::{copy_text, parse_int, same_text, split, split_once, to_lowercase, trim};
use crate::text::{all_ascii, ascii_lower, ascii_lowercase, cut_at, int_value, is_space};
use crate::text::{is_blank, law_cutting_finds_the_first, law_trimming_cuts_white_space_only};
use crate::text::{lowercase, split_on, texts, trim_back, trim_front, trimmed};

verus! {

/// A key, and the product that it writes events of.
pub struct ProductKey {
    pub product: String,
    pub key: String,
}

/// How the store runs.
pub struct Config {
    pub port: u16,
    pub data_dir: String,
    /// The operator's key: it opens queries and erasure, and nothing else. It
    /// cannot write events.
    pub admin_key: String,
    /// Secret keys of the products' servers. They only write, and their events
    /// may say that they come from a server.
    pub server_keys: Vec<ProductKey>,
    /// Public keys of the products' clients. They only write, and their events
    /// always come from a client.
    pub client_keys: Vec<ProductKey>,
    /// The origins from which browsers may send requests, in lower case. Where
    /// there are none, every request with an origin is refused.
    pub allowed_origins: Vec<String>,
    /// The hosts that the query endpoint answers to; any, where there are none.
    pub allowed_hosts: Vec<String>,
    pub compact_interval_secs: u64,
    pub ttl_days: i64,
    /// The keys that are dropped from the properties and the context of
    /// events, in lower case.
    pub property_denylist: Vec<String>,
}

/// The path of an entry in a directory.
pub open spec fn path_in(dir: Seq<char>, name: Seq<char>) -> Seq<char> {
    if dir.len() == 0 || dir.last() == '/' {
        dir + name
    } else {
        dir + "/"@ + name
    }
}

/// The path of an entry in a directory.
pub fn join_path(dir: &str, name: &str) -> (r: String)
    ensures
        r@ == path_in(dir@, name@),
{
    let x = crate::text::chars_of(dir);
    let mut r = copy_text(dir);
    if x.len() > 0 && x[x.len() - 1] != '/' {
        r.append("/");
    }
    r.append(name);
    r
}

/// The value of a variable, where it is set.
pub open spec fn var_value(vars: Seq<(String, String)>, name: Seq<char>) -> Option<Seq<char>>
    decreases vars.len(),
{
    if vars.len() == 0 {
        None
    } else if vars[0].0@ == name {
        Some(vars[0].1@)
    } else {
        var_value(vars.drop_first(), name)
    }
}

/// The value of a variable, or a default where it is not set.
pub open spec fn var_or(
    vars: Seq<(String, String)>,
    name: Seq<char>,
    default: Seq<char>,
) -> Seq<char> {
    match var_value(vars, name) {
        Some(v) => v,
        None => default,
    }
}

fn find_var(vars: &[(String, String)], name: &str) -> (r: Option<String>)
    ensures
        crate::text::opt_text(r) == var_value(vars@, name@),
{
    let mut i: usize = 0;
    proof {
        assert(vars@.skip(0) =~= vars@);
    }
    while i < vars.len()
        invariant
            i <= vars.len(),
            var_value(vars@, name@) == var_value(vars@.skip(i as int), name@),
        decreases vars.len() - i,
    {
        if same_text(vars[i].0.as_str(), name) {
            return Some(copy_text(vars[i].1.as_str()));
        }
        proof {
            assert(vars@.skip(i as int).drop_first() =~= vars@.skip(i + 1));
        }
        i += 1;
    }
    None
}

/// The value of a variable, or a default where it is not set.
pub fn env_or(vars: &[(String, String)], name: &str, default: &str) -> (r: String)
    ensures
        r@ == var_or(vars@, name@, default@),
{
    match find_var(vars, name) {
        Some(v) => v,
        None => copy_text(default),
    }
}

/// The texts that are not empty.
pub open spec fn non_empty(items: Seq<Seq<char>>) -> Seq<Seq<char>> {
    items.filter(|x: Seq<char>| x.len() > 0)
}

/// The texts that are not empty.
pub fn drop_empty(items: &[String]) -> (r: Vec<String>)
    ensures
        texts(r@) == non_empty(texts(items@)),
{
    let ghost all = texts(items@);
    let ghost p = |x: Seq<char>| x.len() > 0;
    let mut r: Vec<String> = Vec::new();
    let mut i: usize = 0;
    proof {
        reveal(Seq::filter);
        assert(all.take(0).filter(p) =~= Seq::<Seq<char>>::empty());
    }
    while i < items.len()
        invariant
            i <= items.len(),
            all == texts(items@),
            p == (|x: Seq<char>| x.len() > 0),
            texts(r@) == all.take(i as int).filter(p),
        decreases items.len() - i,
    {
        proof {
            reveal(Seq::filter);
            assert(all.take(i + 1).drop_last() =~= all.take(i as int));
            assert(all.take(i + 1).last() == all[i as int]);
        }
        if !items[i].as_str().is_empty() {
            let ghost before = r@;
            r.push(copy_text(items[i].as_str()));
            proof {
                assert(texts(r@) =~= texts(before).push(all[i as int]));
            }
        }
        i += 1;
    }
    proof {
        assert(all.take(i as int) =~= all);
    }
    r
}

/// The entries of a list between commas, in lower case and without the white
/// space around them.
pub open spec fn list_entries(s: Seq<char>) -> Seq<Seq<char>> {
    let pieces = split_on(s, ',');
    Seq::new(pieces.len(), |i: int| lowercase(trimmed(pieces[i])))
}

/// The entries of a list between commas, its ASCII letters in lower case and
/// without the white space around them.
pub open spec fn ascii_list_entries(s: Seq<char>) -> Seq<Seq<char>> {
    let pieces = split_on(s, ',');
    Seq::new(pieces.len(), |i: int| ascii_lowercase(trimmed(pieces[i])))
}

proof fn lemma_pieces_are_ascii(s: Seq<char>, sep: char)
    requires
        all_ascii(s),
    ensures
        split_on(s, sep).len() > 0,
        forall|i: int|
            0 <= i < split_on(s, sep).len() ==> all_ascii(#[trigger] split_on(s, sep)[i]),
    decreases s.len(),
{
    if s.len() > 0 {
        lemma_pieces_are_ascii(s.drop_last(), sep);
    }
}

proof fn lemma_trimmed_front_is_ascii(s: Seq<char>)
    requires
        all_ascii(s),
    ensures
        all_ascii(trim_front(s)),
    decreases s.len(),
{
    if s.len() > 0 && is_space(s[0]) {
        lemma_trimmed_front_is_ascii(s.drop_first());
    }
}

proof fn lemma_trimmed_back_is_ascii(s: Seq<char>)
    requires
        all_ascii(s),
    ensures
        all_ascii(trim_back(s)),
    decreases s.len(),
{
    if s.len() > 0 && is_space(s.last()) {
        lemma_trimmed_back_is_ascii(s.drop_last());
    }
}

/// The entries of a list between commas; empty ones do not count.
pub fn csv(s: &str) -> (r: Vec<String>)
    ensures
        texts(r@) == non_empty(list_entries(s@)),
        all_ascii(s@) ==> texts(r@) == non_empty(ascii_list_entries(s@)),
{
    let pieces = split(s, ',');
    let ghost want = list_entries(s@);
    proof {
        if all_ascii(s@) {
            lemma_pieces_are_ascii(s@, ',');
        }
    }
    let mut entries: Vec<String> = Vec::new();
    let mut i: usize = 0;
    while i < pieces.len()
        invariant
            i <= pieces.len(),
            texts(pieces@) == split_on(s@, ','),
            want == list_entries(s@),
            texts(entries@) == want.take(i as int),
            all_ascii(s@) ==> forall|j: int|
                0 <= j < pieces@.len() ==> all_ascii(#[trigger] texts(pieces@)[j]),
            all_ascii(s@) ==> texts(entries@) == ascii_list_entries(s@).take(i as int),
        decreases pieces.len() - i,
    {
        let ghost before = entries@;
        let ghost piece = texts(pieces@)[i as int];
        proof {
            assert(piece == pieces@[i as int]@);
            if all_ascii(s@) {
                lemma_trimmed_front_is_ascii(piece);
                lemma_trimmed_back_is_ascii(trim_front(piece));
            }
        }
        entries.push(to_lowercase(trim(pieces[i].as_str()).as_str()));
        proof {
            assert(texts(entries@) =~= texts(before).push(want[i as int]));
            assert(want.take(i + 1) =~= want.take(i as int).push(want[i as int]));
            if all_ascii(s@) {
                let ascii = ascii_list_entries(s@);
                assert(ascii[i as int] == want[i as int]);
                assert(ascii.take(i + 1) =~= ascii.take(i as int).push(ascii[i as int]));
            }
        }
        i += 1;
    }
    proof {
        assert(pieces@.len() == texts(pieces@).len());
        assert(want.take(i as int) =~= want);
        assert(ascii_list_entries(s@).take(i as int) =~= ascii_list_entries(s@));
    }
    drop_empty(entries.as_slice())
}

/// A text that is not empty neither starts nor ends with white space.
spec fn has_clean_ends(s: Seq<char>) -> bool {
    s.len() > 0 ==> !is_space(s[0]) && !is_space(s.last())
}

proof fn lemma_clean_ends(s: Seq<char>)
    requires
        has_clean_ends(s),
    ensures
        trimmed(s) == s,
{
}

proof fn lemma_trim_front(s: Seq<char>)
    ensures
        trim_front(s).len() > 0 ==> !is_space(trim_front(s)[0]),
        forall|c: char| trim_front(s).contains(c) ==> #[trigger] s.contains(c),
    decreases s.len(),
{
    if s.len() > 0 && is_space(s[0]) {
        let rest = s.drop_first();
        lemma_trim_front(rest);
        assert forall|c: char| trim_front(s).contains(c) implies #[trigger] s.contains(c) by {
            assert(rest.contains(c));
            assert(s[rest.index_of(c) + 1] == c);
        }
    }
}

proof fn lemma_trim_back(s: Seq<char>)
    ensures
        trim_back(s).len() > 0 ==> !is_space(trim_back(s).last()) && trim_back(s)[0] == s[0],
        forall|c: char| trim_back(s).contains(c) ==> #[trigger] s.contains(c),
    decreases s.len(),
{
    if s.len() > 0 && is_space(s.last()) {
        let front = s.drop_last();
        lemma_trim_back(front);
        assert forall|c: char| trim_back(s).contains(c) implies #[trigger] s.contains(c) by {
            assert(front.contains(c));
            assert(s[front.index_of(c)] == c);
        }
    }
}

proof fn lemma_trimmed(s: Seq<char>)
    ensures
        has_clean_ends(trimmed(s)),
        forall|c: char| trimmed(s).contains(c) ==> #[trigger] s.contains(c),
{
    lemma_trim_front(s);
    lemma_trim_back(trim_front(s));
}

proof fn lemma_pieces_hold_no_separator(s: Seq<char>, sep: char)
    ensures
        split_on(s, sep).len() > 0,
        forall|i: int|
            0 <= i < split_on(s, sep).len() ==> !(#[trigger] split_on(s, sep)[i]).contains(sep),
    decreases s.len(),
{
    if s.len() > 0 {
        let front = s.drop_last();
        lemma_pieces_hold_no_separator(front, sep);
        let before = split_on(front, sep);
        let all = split_on(s, sep);
        assert forall|i: int| 0 <= i < all.len() implies !(#[trigger] all[i]).contains(sep) by {
            if i < before.len() - 1 {
                assert(all[i] == before[i]);
            } else if s.last() != sep {
                let piece = before.last();
                assert(piece == before[before.len() - 1]);
                if all[i].contains(sep) {
                    let at = all[i].index_of(sep);
                    assert(piece[at] == sep);
                }
            } else if i == before.len() - 1 {
                assert(all[i] == before[i]);
            }
        }
    }
}

proof fn lemma_split_grows(a: Seq<char>, b: Seq<char>, sep: char)
    requires
        !b.contains(sep),
    ensures
        split_on(a, sep).len() > 0,
        split_on(a + b, sep) == split_on(a, sep).drop_last().push(split_on(a, sep).last() + b),
    decreases b.len(),
{
    lemma_pieces_hold_no_separator(a, sep);
    let pieces = split_on(a, sep);
    if b.len() == 0 {
        assert(a + b =~= a);
        assert(pieces.last() + b =~= pieces.last());
        assert(pieces.drop_last().push(pieces.last()) =~= pieces);
    } else {
        let front = b.drop_last();
        let last = b[b.len() - 1];
        assert(b.contains(last));
        if front.contains(sep) {
            assert(b[front.index_of(sep)] == sep);
        }
        lemma_split_grows(a, front, sep);
        assert((a + b).drop_last() =~= a + front);
        assert((a + b).last() == last);
        let before = pieces.drop_last().push(pieces.last() + front);
        assert(before.drop_last() =~= pieces.drop_last());
        assert((pieces.last() + front).push(last) =~= pieces.last() + b);
    }
}

proof fn lemma_split_joined(items: Seq<Seq<char>>)
    requires
        items.len() > 0,
        forall|i: int| 0 <= i < items.len() ==> !(#[trigger] items[i]).contains(','),
    ensures
        split_on(joined(items, ","@), ',') == items,
    decreases items.len(),
{
    let none = Seq::<char>::empty();
    let last = items[items.len() - 1];
    if items.len() == 1 {
        lemma_split_grows(none, last, ',');
        assert(none + last =~= last);
        assert(split_on(none, ',') =~= seq![none]);
        assert(split_on(last, ',') =~= items);
    } else {
        let front = items.drop_last();
        assert forall|i: int| 0 <= i < front.len() implies !(#[trigger] front[i]).contains(',') by {
            assert(front[i] == items[i]);
        }
        lemma_split_joined(front);
        reveal_strlit(",");
        let start = joined(front, ","@);
        let a = start + ","@;
        assert(a.drop_last() =~= start);
        assert(a.last() == ',');
        assert(split_on(a, ',') == front.push(none));
        lemma_split_grows(a, last, ',');
        assert(none + last =~= last);
        assert(front.push(none).drop_last() =~= front);
        assert(split_on(a + last, ',') =~= items);
    }
}

proof fn lemma_joined_is_ascii(items: Seq<Seq<char>>)
    requires
        forall|i: int| 0 <= i < items.len() ==> all_ascii(#[trigger] items[i]),
    ensures
        all_ascii(joined(items, ","@)),
    decreases items.len(),
{
    reveal_strlit(",");
    if items.len() == 1 {
        assert(all_ascii(items[0]));
    } else if items.len() > 1 {
        let front = items.drop_last();
        assert forall|i: int| 0 <= i < front.len() implies all_ascii(#[trigger] front[i]) by {
            assert(front[i] == items[i]);
        }
        lemma_joined_is_ascii(front);
        assert(all_ascii(items[items.len() - 1]));
        let (a, b) = (joined(front, ","@), items.last());
        let all = a + ","@ + b;
        assert forall|i: int| 0 <= i < all.len() implies (#[trigger] all[i] as int) < 128 by {
            if i < a.len() {
                assert(all[i] == a[i]);
            } else if i > a.len() {
                assert(all[i] == b[i - a.len() - 1]);
            }
        }
    }
}

/// Whether a text is an entry as reading a list gives it: not empty, without
/// white space around it, in lower case, and without a comma.
pub open spec fn is_entry(x: Seq<char>) -> bool {
    x.len() > 0 && trimmed(x) == x && ascii_lowercase(x) == x && !x.contains(',') && all_ascii(x)
}

proof fn lemma_entry(piece: Seq<char>)
    requires
        all_ascii(piece),
        !piece.contains(','),
    ensures
        ascii_lowercase(trimmed(piece)).len() > 0 ==> is_entry(ascii_lowercase(trimmed(piece))),
{
    let t = trimmed(piece);
    let x = ascii_lowercase(t);
    lemma_trimmed(piece);
    lemma_trimmed_front_is_ascii(piece);
    lemma_trimmed_back_is_ascii(trim_front(piece));
    assert forall|i: int| 0 <= i < x.len() implies (#[trigger] x[i] as int) < 128 && ascii_lower(
        x[i],
    ) == x[i] && (is_space(x[i]) == is_space(t[i])) && x[i] != ',' by {
        assert((t[i] as int) < 128);
        assert(t.contains(t[i]));
        assert(piece.contains(t[i]));
    }
    assert(ascii_lowercase(x) =~= x);
    if x.len() > 0 {
        assert(x[x.len() - 1] == x.last());
        assert(t[t.len() - 1] == t.last());
        lemma_clean_ends(x);
    }
}

/// Reading a list gives entries that are not empty, and that lower case and
/// trimming leave as they are and that hold no comma, where that is so of each
/// lowered piece. Joined with commas, they are a list that reads the same.
pub proof fn law_lists_read_back(s: Seq<char>)
    requires
        forall|i: int|
            0 <= i < list_entries(s).len() ==> is_settled(#[trigger] list_entries(s)[i]),
    ensures
        ({
            let entries = non_empty(list_entries(s));
            &&& forall|i: int|
                0 <= i < entries.len() ==> (#[trigger] entries[i]).len() > 0 && is_settled(
                    entries[i],
                )
            &&& non_empty(list_entries(joined(entries, ","@))) == entries
        }),
{
    let all = list_entries(s);
    let p = |x: Seq<char>| x.len() > 0;
    let entries = non_empty(all);
    let list = joined(entries, ","@);
    assert forall|i: int| 0 <= i < entries.len() implies (#[trigger] entries[i]).len() > 0
        && is_settled(entries[i]) by {
        all.lemma_filter_pred(p, i);
        assert(entries.contains(entries[i]));
        all.lemma_filter_contains_rev(p, entries[i]);
        let j = all.index_of(entries[i]);
        assert(is_settled(all[j]));
    }
    let again = list_entries(list);
    if entries.len() == 0 {
        let none = Seq::<char>::empty();
        lemma_pieces_hold_no_separator(s, ',');
        assert(is_settled(all[0]));
        if all[0].len() > 0 {
            all.lemma_filter_contains(p, 0);
        }
        assert(all[0] =~= none);
        assert(list =~= none);
        assert(split_on(list, ',') =~= seq![none]);
        assert(trimmed(none) =~= none);
        assert(again =~= seq![none]);
        if non_empty(again).len() > 0 {
            let x = non_empty(again)[0];
            again.lemma_filter_pred(p, 0);
            assert(non_empty(again).contains(x));
            again.lemma_filter_contains_rev(p, x);
        }
        assert(non_empty(again) =~= entries);
    } else {
        assert forall|i: int| 0 <= i < entries.len() implies !(#[trigger] entries[i]).contains(
            ',',
        ) by {
            assert(is_settled(entries[i]));
        }
        lemma_split_joined(entries);
        assert(again =~= entries);
        lemma_nothing_to_drop(entries);
    }
}

/// Whether lower case and trimming leave a text as it is, and it holds no
/// comma.
pub open spec fn is_settled(x: Seq<char>) -> bool {
    lowercase(x) == x && trimmed(x) == x && !x.contains(',')
}

/// Reading a list of ASCII text gives entries that are not empty, without
/// white space around them, in lower case and without a comma. Joined with
/// commas, they are a list that reads the same.
pub proof fn law_ascii_lists_read_back(s: Seq<char>)
    requires
        all_ascii(s),
    ensures
        ({
            let entries = non_empty(ascii_list_entries(s));
            let list = joined(entries, ","@);
            &&& forall|i: int| 0 <= i < entries.len() ==> is_entry(#[trigger] entries[i])
            &&& all_ascii(list)
            &&& non_empty(ascii_list_entries(list)) == entries
        }),
{
    let all = ascii_list_entries(s);
    let pieces = split_on(s, ',');
    let p = |x: Seq<char>| x.len() > 0;
    let entries = non_empty(all);
    let list = joined(entries, ","@);
    lemma_pieces_are_ascii(s, ',');
    lemma_pieces_hold_no_separator(s, ',');
    assert forall|i: int| 0 <= i < entries.len() implies is_entry(#[trigger] entries[i]) by {
        all.lemma_filter_pred(p, i);
        assert(entries.contains(entries[i]));
        all.lemma_filter_contains_rev(p, entries[i]);
        let j = all.index_of(entries[i]);
        lemma_entry(pieces[j]);
    }
    lemma_joined_is_ascii(entries);
    let again = ascii_list_entries(list);
    if entries.len() == 0 {
        let none = Seq::<char>::empty();
        assert(list =~= none);
        assert(split_on(list, ',') =~= seq![none]);
        assert(again =~= seq![ascii_lowercase(trimmed(none))]);
        assert(again[0].len() == 0);
        if non_empty(again).len() > 0 {
            let x = non_empty(again)[0];
            again.lemma_filter_pred(p, 0);
            assert(non_empty(again).contains(x));
            again.lemma_filter_contains_rev(p, x);
        }
        assert(non_empty(again) =~= entries);
    } else {
        lemma_split_joined(entries);
        assert(again =~= entries);
        lemma_nothing_to_drop(entries);
    }
}

proof fn lemma_nothing_to_drop(items: Seq<Seq<char>>)
    requires
        forall|i: int| 0 <= i < items.len() ==> (#[trigger] items[i]).len() > 0,
    ensures
        non_empty(items) == items,
    decreases items.len(),
{
    reveal(Seq::filter);
    if items.len() > 0 {
        let front = items.drop_last();
        assert forall|i: int| 0 <= i < front.len() implies (#[trigger] front[i]).len() > 0 by {
            assert(front[i] == items[i]);
        }
        lemma_nothing_to_drop(front);
        assert(items[items.len() - 1].len() > 0);
        assert(front.push(items.last()) =~= items);
    }
}

/// A product and its key, as a pair of texts.
pub open spec fn key_pair(k: ProductKey) -> (Seq<char>, Seq<char>) {
    (k.product@, k.key@)
}

/// The pairs of texts of keys.
pub open spec fn key_pairs(keys: Seq<ProductKey>) -> Seq<(Seq<char>, Seq<char>)> {
    Seq::new(keys.len(), |i: int| key_pair(keys[i]))
}

/// The key that an entry `product:key` stands for, or what is wrong with it.
pub open spec fn key_entry(entry: Seq<char>) -> Result<(Seq<char>, Seq<char>), Seq<char>> {
    match cut_at(entry, ':') {
        None => Err("product key entries must be product:key"@),
        Some((before, after)) => {
            let product = trimmed(before);
            let key = trimmed(after);
            if product.len() == 0 || !all_product_chars(product) {
                Err("invalid product '"@ + product + "' in product keys"@)
            } else if encode_utf8(key).len() < 16 {
                Err("key for '"@ + product + "' must be at least 16 characters"@)
            } else {
                Ok((product, key))
            }
        },
    }
}

/// The keys that a list of entries stands for, or what is wrong with the first
/// faulty one. Empty entries do not count.
pub open spec fn product_keys(entries: Seq<Seq<char>>) -> Result<
    Seq<(Seq<char>, Seq<char>)>,
    Seq<char>,
>
    decreases entries.len(),
{
    if entries.len() == 0 {
        Ok(Seq::empty())
    } else {
        match product_keys(entries.drop_last()) {
            Err(e) => Err(e),
            Ok(keys) => {
                let entry = trimmed(entries.last());
                if entry.len() == 0 {
                    Ok(keys)
                } else {
                    match key_entry(entry) {
                        Err(e) => Err(e),
                        Ok(key) => Ok(keys.push(key)),
                    }
                }
            },
        }
    }
}

fn parse_entry(entry: &str) -> (r: Result<ProductKey, String>)
    ensures
        match r {
            Ok(k) => key_entry(entry@) == Ok::<(Seq<char>, Seq<char>), Seq<char>>(key_pair(k)),
            Err(e) => key_entry(entry@) == Err::<(Seq<char>, Seq<char>), Seq<char>>(e@),
        },
{
    match split_once(entry, ':') {
        None => Err(copy_text("product key entries must be product:key")),
        Some((before, after)) => {
            let product = trim(before.as_str());
            let key = trim(after.as_str());
            if product.as_str().is_empty() || !has_product_chars(product.as_str()) {
                let mut e = copy_text("invalid product '");
                e.append(product.as_str());
                e.append("' in product keys");
                return Err(e);
            }
            if key.as_str().as_bytes().len() < 16 {
                let mut e = copy_text("key for '");
                e.append(product.as_str());
                e.append("' must be at least 16 characters");
                return Err(e);
            }
            Ok(ProductKey { product, key })
        },
    }
}

/// The first fault stands, whatever follows it.
proof fn lemma_first_fault(entries: Seq<Seq<char>>, k: int)
    requires
        0 <= k <= entries.len(),
        product_keys(entries.take(k)) is Err,
    ensures
        product_keys(entries) == product_keys(entries.take(k)),
    decreases entries.len(),
{
    if k == entries.len() {
        assert(entries.take(k) =~= entries);
    } else {
        assert(entries.drop_last().take(k) =~= entries.take(k));
        lemma_first_fault(entries.drop_last(), k);
    }
}

/// The keys that a list `product:key,product:key` stands for, or what is wrong
/// with it.
pub fn parse_product_keys(s: &str) -> (r: Result<Vec<ProductKey>, String>)
    ensures
        match r {
            Ok(keys) => product_keys(split_on(s@, ',')) == Ok::<
                Seq<(Seq<char>, Seq<char>)>,
                Seq<char>,
            >(key_pairs(keys@)),
            Err(e) => product_keys(split_on(s@, ',')) == Err::<
                Seq<(Seq<char>, Seq<char>)>,
                Seq<char>,
            >(e@),
        },
{
    let entries = split(s, ',');
    let ghost all = split_on(s@, ',');
    let mut keys: Vec<ProductKey> = Vec::new();
    let mut i: usize = 0;
    proof {
        assert(all.take(0) =~= Seq::<Seq<char>>::empty());
        assert(key_pairs(keys@) =~= Seq::<(Seq<char>, Seq<char>)>::empty());
    }
    while i < entries.len()
        invariant
            i <= entries.len(),
            all == split_on(s@, ','),
            texts(entries@) == all,
            product_keys(all.take(i as int)) == Ok::<Seq<(Seq<char>, Seq<char>)>, Seq<char>>(
                key_pairs(keys@),
            ),
        decreases entries.len() - i,
    {
        proof {
            assert(texts(entries@)[i as int] == entries@[i as int]@);
            assert(all.take(i + 1).drop_last() =~= all.take(i as int));
            assert(all.take(i + 1).last() == all[i as int]);
        }
        let entry = trim(entries[i].as_str());
        if !entry.as_str().is_empty() {
            match parse_entry(entry.as_str()) {
                Ok(key) => {
                    let ghost before = keys@;
                    let ghost pair = key_pair(key);
                    keys.push(key);
                    proof {
                        assert(key_pairs(keys@) =~= key_pairs(before).push(pair));
                    }
                },
                Err(e) => {
                    proof {
                        lemma_first_fault(all, i + 1);
                    }
                    return Err(e);
                },
            }
        }
        i += 1;
    }
    proof {
        assert(entries@.len() == texts(entries@).len());
        assert(all.take(i as int) =~= all);
    }
    Ok(keys)
}

/// Every configured key belongs to a product with a name that events may
/// have, and is at least 16 bytes long.
pub proof fn law_product_keys_are_sound(entries: Seq<Seq<char>>, i: int)
    requires
        product_keys(entries) is Ok,
        0 <= i < product_keys(entries)->Ok_0.len(),
    ensures
        product_keys(entries)->Ok_0[i].0.len() > 0,
        all_product_chars(product_keys(entries)->Ok_0[i].0),
        encode_utf8(product_keys(entries)->Ok_0[i].1).len() >= 16,
    decreases entries.len(),
{
    if entries.len() > 0 {
        let front = entries.drop_last();
        if i < product_keys(front)->Ok_0.len() {
            law_product_keys_are_sound(front, i);
        }
    }
}

/// The first of two faults.
pub open spec fn first_of(a: Option<Seq<char>>, b: Option<Seq<char>>) -> Option<Seq<char>> {
    match a {
        Some(e) => Some(e),
        None => b,
    }
}

/// What is wrong with a number.
pub open spec fn int_fault(s: Seq<char>, min: int, max: int) -> Option<Seq<char>> {
    match int_value(s, min, max) {
        Ok(_) => None,
        Err(e) => Some(e.text()),
    }
}

/// What is wrong with a list of keys.
pub open spec fn keys_fault(s: Seq<char>) -> Option<Seq<char>> {
    match product_keys(split_on(s, ',')) {
        Ok(_) => None,
        Err(e) => Some(e),
    }
}

/// What is wrong with the operator's key.
pub open spec fn admin_key_fault(key: Option<Seq<char>>) -> Option<Seq<char>> {
    match key {
        None => Some("PULSE_ADMIN_KEY is required"@),
        Some(k) => if trimmed(k).len() < 16 {
            Some("PULSE_ADMIN_KEY must be at least 16 characters"@)
        } else {
            None
        },
    }
}

/// What is wrong with the environment: the first fault.
pub open spec fn env_fault(vars: Seq<(String, String)>) -> Option<Seq<char>> {
    first_of(
        admin_key_fault(var_value(vars, "PULSE_ADMIN_KEY"@)),
        first_of(
            int_fault(var_or(vars, "PULSE_PORT"@, "8080"@), 0, u16::MAX as int),
            first_of(
                keys_fault(var_or(vars, "PULSE_SERVER_KEYS"@, ""@)),
                first_of(
                    keys_fault(var_or(vars, "PULSE_CLIENT_KEYS"@, ""@)),
                    first_of(
                        int_fault(
                            var_or(vars, "PULSE_COMPACT_INTERVAL_SECS"@, "60"@),
                            0,
                            u64::MAX as int,
                        ),
                        int_fault(
                            var_or(vars, "PULSE_TTL_DAYS"@, "730"@),
                            i64::MIN as int,
                            i64::MAX as int,
                        ),
                    ),
                ),
            ),
        ),
    )
}

/// Whether a configuration is what the environment says.
pub open spec fn is_configured(c: Config, vars: Seq<(String, String)>) -> bool {
    &&& int_value(var_or(vars, "PULSE_PORT"@, "8080"@), 0, u16::MAX as int) == Ok::<
        int,
        crate::text::IntError,
    >(c.port as int)
    &&& c.data_dir@ == var_or(vars, "PULSE_DATA_DIR"@, "./data"@)
    &&& var_value(vars, "PULSE_ADMIN_KEY"@) matches Some(k) && c.admin_key@ == trimmed(k)
    &&& product_keys(split_on(var_or(vars, "PULSE_SERVER_KEYS"@, ""@), ',')) == Ok::<
        Seq<(Seq<char>, Seq<char>)>,
        Seq<char>,
    >(key_pairs(c.server_keys@))
    &&& product_keys(split_on(var_or(vars, "PULSE_CLIENT_KEYS"@, ""@), ',')) == Ok::<
        Seq<(Seq<char>, Seq<char>)>,
        Seq<char>,
    >(key_pairs(c.client_keys@))
    &&& texts(c.allowed_origins@) == non_empty(
        list_entries(var_or(vars, "PULSE_ALLOWED_ORIGINS"@, ""@)),
    )
    &&& texts(c.allowed_hosts@) == non_empty(
        list_entries(var_or(vars, "PULSE_ALLOWED_HOSTS"@, ""@)),
    )
    &&& int_value(
        var_or(vars, "PULSE_COMPACT_INTERVAL_SECS"@, "60"@),
        0,
        u64::MAX as int,
    ) == Ok::<int, crate::text::IntError>(c.compact_interval_secs as int)
    &&& int_value(
        var_or(vars, "PULSE_TTL_DAYS"@, "730"@),
        i64::MIN as int,
        i64::MAX as int,
    ) == Ok::<int, crate::text::IntError>(c.ttl_days as int)
    &&& texts(c.property_denylist@) == non_empty(
        list_entries(
            var_or(
                vars,
                "PULSE_PROPERTY_DENYLIST"@,
                "email,phone,name,first_name,last_name,password,token"@,
            ),
        ),
    )
}

impl Config {
    /// The configuration that the environment variables give, or what is wrong
    /// with them.
    pub fn from_env(vars: &[(String, String)]) -> (r: Result<Config, String>)
        ensures
            match r {
                Ok(c) => env_fault(vars@) is None && is_configured(c, vars@),
                Err(e) => env_fault(vars@) == Some(e@),
            },
    {
        let admin_key = match find_var(vars, "PULSE_ADMIN_KEY") {
            Some(k) => trim(k.as_str()),
            None => {
                return Err(copy_text("PULSE_ADMIN_KEY is required"));
            },
        };
        if crate::text::chars_of(admin_key.as_str()).len() < 16 {
            return Err(copy_text("PULSE_ADMIN_KEY must be at least 16 characters"));
        }
        let port: u16 = match parse_int(
            env_or(vars, "PULSE_PORT", "8080").as_str(),
            0,
            u16::MAX as i128,
        ) {
            Ok(n) => n as u16,
            Err(e) => {
                return Err(e.message());
            },
        };
        let data_dir = env_or(vars, "PULSE_DATA_DIR", "./data");
        let server_keys = match parse_product_keys(
            env_or(vars, "PULSE_SERVER_KEYS", "").as_str(),
        ) {
            Ok(keys) => keys,
            Err(e) => {
                return Err(e);
            },
        };
        let client_keys = match parse_product_keys(
            env_or(vars, "PULSE_CLIENT_KEYS", "").as_str(),
        ) {
            Ok(keys) => keys,
            Err(e) => {
                return Err(e);
            },
        };
        let allowed_origins = csv(env_or(vars, "PULSE_ALLOWED_ORIGINS", "").as_str());
        let allowed_hosts = csv(env_or(vars, "PULSE_ALLOWED_HOSTS", "").as_str());
        let compact_interval_secs: u64 = match parse_int(
            env_or(vars, "PULSE_COMPACT_INTERVAL_SECS", "60").as_str(),
            0,
            u64::MAX as i128,
        ) {
            Ok(n) => n as u64,
            Err(e) => {
                return Err(e.message());
            },
        };
        let ttl_days: i64 = match parse_int(
            env_or(vars, "PULSE_TTL_DAYS", "730").as_str(),
            i64::MIN as i128,
            i64::MAX as i128,
        ) {
            Ok(n) => n as i64,
            Err(e) => {
                return Err(e.message());
            },
        };
        let property_denylist = csv(
            env_or(
                vars,
                "PULSE_PROPERTY_DENYLIST",
                "email,phone,name,first_name,last_name,password,token",
            ).as_str(),
        );
        Ok(
            Config {
                port,
                data_dir,
                admin_key,
                server_keys,
                client_keys,
                allowed_origins,
                allowed_hosts,
                compact_interval_secs,
                ttl_days,
                property_denylist,
            },
        )
    }

    /// The directory of the log.
    pub fn wal_dir(&self) -> (r: String)
        ensures
            r@ == path_in(self.data_dir@, "wal"@),
    {
        join_path(self.data_dir.as_str(), "wal")
    }

    /// The directory of the partitions.
    pub fn events_dir(&self) -> (r: String)
        ensures
            r@ == path_in(self.data_dir@, "events"@),
    {
        join_path(self.data_dir.as_str(), "events")
    }
}

/// A configuration that was read from the environment has an operator's key
/// of at least 16 characters, and products' keys of at least 16 bytes.
pub proof fn law_no_key_is_short(c: Config, vars: Seq<(String, String)>)
    requires
        env_fault(vars) is None,
        is_configured(c, vars),
    ensures
        c.admin_key@.len() >= 16,
        forall|i: int|
            0 <= i < c.server_keys@.len() ==> encode_utf8(
                (#[trigger] c.server_keys@[i]).key@,
            ).len() >= 16,
        forall|i: int|
            0 <= i < c.client_keys@.len() ==> encode_utf8(
                (#[trigger] c.client_keys@[i]).key@,
            ).len() >= 16,
{
    let servers = split_on(var_or(vars, "PULSE_SERVER_KEYS"@, ""@), ',');
    let clients = split_on(var_or(vars, "PULSE_CLIENT_KEYS"@, ""@), ',');
    assert forall|i: int| 0 <= i < c.server_keys@.len() implies encode_utf8(
        (#[trigger] c.server_keys@[i]).key@,
    ).len() >= 16 by {
        law_product_keys_are_sound(servers, i);
        assert(key_pairs(c.server_keys@)[i] == key_pair(c.server_keys@[i]));
    }
    assert forall|i: int| 0 <= i < c.client_keys@.len() implies encode_utf8(
        (#[trigger] c.client_keys@[i]).key@,
    ).len() >= 16 by {
        law_product_keys_are_sound(clients, i);
        assert(key_pairs(c.client_keys@)[i] == key_pair(c.client_keys@[i]));
    }
}

/// A path is the directory, a slash unless it has one at its end or is empty,
/// and the name.
pub proof fn law_paths_have_one_slash(dir: Seq<char>, name: Seq<char>)
    ensures
        path_in(Seq::empty(), name) == name,
        path_in(dir.push('/'), name) == dir + "/"@ + name,
        dir.len() > 0 && dir.last() != '/' ==> path_in(dir, name) == dir + "/"@ + name,
{
    reveal_strlit("/");
    assert(Seq::<char>::empty() + name =~= name);
    assert(dir.push('/') + name =~= dir + "/"@ + name);
}

/// A variable has the value that it is first given, or the default where it is
/// given none.
pub proof fn law_variables_have_their_first_value(
    vars: Seq<(String, String)>,
    name: Seq<char>,
    default: Seq<char>,
    i: int,
)
    ensures
        0 <= i < vars.len() && vars[i].0@ == name && (forall|j: int|
            0 <= j < i ==> (#[trigger] vars[j]).0@ != name) ==> var_value(vars, name) == Some(
            vars[i].1@,
        ) && var_or(vars, name, default) == vars[i].1@,
        (forall|j: int| 0 <= j < vars.len() ==> (#[trigger] vars[j]).0@ != name) ==> var_value(
            vars,
            name,
        ) is None && var_or(vars, name, default) == default,
    decreases vars.len(),
{
    if vars.len() > 0 {
        let rest = vars.drop_first();
        law_variables_have_their_first_value(rest, name, default, i - 1);
        if forall|j: int| 0 <= j < vars.len() ==> (#[trigger] vars[j]).0@ != name {
            assert forall|j: int| 0 <= j < rest.len() implies (#[trigger] rest[j]).0@ != name by {
                assert(rest[j] == vars[j + 1]);
            }
            assert(vars[0].0@ != name);
        }
        if 0 < i < vars.len() && vars[i].0@ == name && (forall|j: int|
            0 <= j < i ==> (#[trigger] vars[j]).0@ != name) {
            assert forall|j: int| 0 <= j < i - 1 implies (#[trigger] rest[j]).0@ != name by {
                assert(rest[j] == vars[j + 1]);
            }
            assert(vars[0].0@ != name);
        }
    }
}

/// The pieces of a text hold no separator, and with separators between them
/// they make up the text.
pub proof fn law_pieces_make_up_the_text(s: Seq<char>, sep: char)
    ensures
        split_on(s, sep).len() > 0,
        forall|i: int|
            0 <= i < split_on(s, sep).len() ==> !(#[trigger] split_on(s, sep)[i]).contains(sep),
        joined(split_on(s, sep), seq![sep]) == s,
    decreases s.len(),
{
    lemma_pieces_hold_no_separator(s, sep);
    if s.len() > 0 {
        let front = s.drop_last();
        law_pieces_make_up_the_text(front, sep);
        let before = split_on(front, sep);
        let none = Seq::<char>::empty();
        if s.last() == sep {
            law_joined_texts_stand_in_order(before, none, seq![sep]);
            assert(joined(before.push(none), seq![sep]) =~= s);
        } else {
            let less = before.drop_last();
            let piece = before.last();
            let longer = piece.push(s.last());
            assert(less.push(piece) =~= before);
            law_joined_texts_stand_in_order(less, piece, seq![sep]);
            law_joined_texts_stand_in_order(less, longer, seq![sep]);
            if less.len() == 0 {
                assert(less.push(piece) =~= seq![piece]);
                assert(less.push(longer) =~= seq![longer]);
            }
            assert(joined(less.push(piece), seq![sep]) == front);
            assert(split_on(s, sep) == less.push(longer));
            assert(joined(less.push(longer), seq![sep]) =~= front.push(s.last()));
            assert(s =~= front.push(s.last()));
        }
    }
}

/// A list has an entry for each of its pieces: the piece in lower case and
/// without the white space around it.
pub proof fn law_lists_have_an_entry_for_each_piece(s: Seq<char>, i: int)
    requires
        0 <= i < split_on(s, ',').len(),
    ensures
        list_entries(s).len() == split_on(s, ',').len(),
        list_entries(s)[i] == lowercase(trimmed(split_on(s, ',')[i])),
        ascii_list_entries(s).len() == split_on(s, ',').len(),
        ascii_list_entries(s)[i] == ascii_lowercase(trimmed(split_on(s, ',')[i])),
{
}

/// Of texts all are kept but the empty ones, in order.
pub proof fn law_only_empty_texts_are_dropped(
    a: Seq<Seq<char>>,
    b: Seq<Seq<char>>,
    x: Seq<char>,
)
    ensures
        non_empty(a + b) == non_empty(a) + non_empty(b),
        x.len() > 0 ==> non_empty(seq![x]) == seq![x],
        x.len() == 0 ==> non_empty(seq![x]).len() == 0,
{
    reveal(Seq::filter);
    let p = |x: Seq<char>| x.len() > 0;
    Seq::filter_distributes_over_add(a, b, p);
    let one = seq![x];
    assert(one.drop_last() =~= Seq::<Seq<char>>::empty());
    assert(one.last() == x);
    assert(one.drop_last().filter(p) =~= Seq::<Seq<char>>::empty());
    assert(one.filter(p) =~= if x.len() > 0 {
        seq![x]
    } else {
        Seq::empty()
    });
}

/// An entry of a list of keys is the product, a colon and the key, with white
/// space around each or not. It is right exactly if the product is made of
/// ASCII letters, digits, `-` and `_`, at least one, and the key has at least
/// 16 bytes; keys may hold colons.
pub proof fn law_key_entries_are_product_and_key(before: Seq<char>, after: Seq<char>)
    requires
        !before.contains(':'),
    ensures
        ({
            let product = trimmed(before);
            let key = trimmed(after);
            let named = product.len() > 0 && forall|i: int|
                0 <= i < product.len() ==> (97 <= (#[trigger] product[i]) as int <= 122 || 65
                    <= product[i] as int <= 90 || 48 <= product[i] as int <= 57 || product[i]
                    == '-' || product[i] == '_');
            let entry = key_entry(before + seq![':'] + after);
            &&& named && encode_utf8(key).len() >= 16 ==> entry == Ok::<
                (Seq<char>, Seq<char>),
                Seq<char>,
            >((product, key))
            &&& named && encode_utf8(key).len() < 16 ==> entry == Err::<
                (Seq<char>, Seq<char>),
                Seq<char>,
            >("key for '"@ + product + "' must be at least 16 characters"@)
            &&& !named ==> entry == Err::<(Seq<char>, Seq<char>), Seq<char>>(
                "invalid product '"@ + product + "' in product keys"@,
            )
            &&& key_entry(before) == Err::<(Seq<char>, Seq<char>), Seq<char>>(
                "product key entries must be product:key"@,
            )
        }),
{
    let entry = before + seq![':'] + after;
    law_cutting_finds_the_first(entry, ':', before, after);
    law_cutting_finds_the_first(before, ':', before, after);
    let product = trimmed(before);
    assert forall|i: int| 0 <= i < product.len() implies (is_product_char(#[trigger] product[i])
        <==> (97 <= product[i] as int <= 122 || 65 <= product[i] as int <= 90 || 48
        <= product[i] as int <= 57 || product[i] == '-' || product[i] == '_')) by {
        lemma_product_char(product[i]);
    }
}

proof fn lemma_product_char(c: char)
    ensures
        is_product_char(c) <==> (97 <= c as int <= 122 || 65 <= c as int <= 90 || 48 <= c as int
            <= 57 || c == '-' || c == '_'),
{
}

/// Keys are read entry by entry: a blank entry adds nothing, a right one its
/// product and key behind those before it, and a faulty one ends the reading,
/// whatever follows.
pub proof fn law_keys_are_read_entry_by_entry(entries: Seq<Seq<char>>, entry: Seq<char>)
    ensures
        product_keys(Seq::empty()) == Ok::<Seq<(Seq<char>, Seq<char>)>, Seq<char>>(Seq::empty()),
        match product_keys(entries) {
            Err(e) => product_keys(entries.push(entry)) == Err::<
                Seq<(Seq<char>, Seq<char>)>,
                Seq<char>,
            >(e),
            Ok(keys) => if is_blank(entry) {
                product_keys(entries.push(entry)) == product_keys(entries)
            } else {
                match key_entry(trimmed(entry)) {
                    Ok(key) => product_keys(entries.push(entry)) == Ok::<
                        Seq<(Seq<char>, Seq<char>)>,
                        Seq<char>,
                    >(keys.push(key)),
                    Err(e) => product_keys(entries.push(entry)) == Err::<
                        Seq<(Seq<char>, Seq<char>)>,
                        Seq<char>,
                    >(e),
                }
            },
        },
{
    assert(entries.push(entry).drop_last() =~= entries);
    let _ = law_trimming_cuts_white_space_only(entry);
}

/// The pairs of texts of keys are those of each key.
pub proof fn law_pairs_are_those_of_the_keys(keys: Seq<ProductKey>, i: int)
    requires
        0 <= i < keys.len(),
    ensures
        key_pairs(keys).len() == keys.len(),
        key_pairs(keys)[i] == (keys[i].product@, keys[i].key@),
{
}

/// The environment is right exactly if the operator's key is there with at
/// least 16 characters, the lists of keys are right, and the numbers are
/// numbers in range.
pub proof fn law_when_the_environment_is_right(vars: Seq<(String, String)>)
    ensures
        env_fault(vars) is None <==> {
            &&& var_value(vars, "PULSE_ADMIN_KEY"@) matches Some(k) && trimmed(k).len() >= 16
            &&& int_value(var_or(vars, "PULSE_PORT"@, "8080"@), 0, 65_535) is Ok
            &&& product_keys(split_on(var_or(vars, "PULSE_SERVER_KEYS"@, ""@), ',')) is Ok
            &&& product_keys(split_on(var_or(vars, "PULSE_CLIENT_KEYS"@, ""@), ',')) is Ok
            &&& int_value(
                var_or(vars, "PULSE_COMPACT_INTERVAL_SECS"@, "60"@),
                0,
                18_446_744_073_709_551_615,
            ) is Ok
            &&& int_value(
                var_or(vars, "PULSE_TTL_DAYS"@, "730"@),
                -9_223_372_036_854_775_808,
                9_223_372_036_854_775_807,
            ) is Ok
        },
{
}

/// Of several faults of the environment the first is told: that of the
/// operator's key, the port, the servers' keys, the clients' keys, the interval
/// of compaction, and the days that events stay.
pub proof fn law_the_first_fault_of_the_environment_is_told(vars: Seq<(String, String)>)
    ensures
        ({
            let port = int_value(var_or(vars, "PULSE_PORT"@, "8080"@), 0, 65_535);
            let servers = product_keys(split_on(var_or(vars, "PULSE_SERVER_KEYS"@, ""@), ','));
            let clients = product_keys(split_on(var_or(vars, "PULSE_CLIENT_KEYS"@, ""@), ','));
            let interval = int_value(
                var_or(vars, "PULSE_COMPACT_INTERVAL_SECS"@, "60"@),
                0,
                18_446_744_073_709_551_615,
            );
            let days = int_value(
                var_or(vars, "PULSE_TTL_DAYS"@, "730"@),
                -9_223_372_036_854_775_808,
                9_223_372_036_854_775_807,
            );
            match var_value(vars, "PULSE_ADMIN_KEY"@) {
                None => env_fault(vars) == Some("PULSE_ADMIN_KEY is required"@),
                Some(k) => if trimmed(k).len() < 16 {
                    env_fault(vars) == Some("PULSE_ADMIN_KEY must be at least 16 characters"@)
                } else {
                    match (port, servers, clients, interval, days) {
                        (Err(e), _, _, _, _) => env_fault(vars) == Some(e.text()),
                        (Ok(_), Err(e), _, _, _) => env_fault(vars) == Some(e),
                        (Ok(_), Ok(_), Err(e), _, _) => env_fault(vars) == Some(e),
                        (Ok(_), Ok(_), Ok(_), Err(e), _) => env_fault(vars) == Some(e.text()),
                        (Ok(_), Ok(_), Ok(_), Ok(_), Err(e)) => env_fault(vars) == Some(e.text()),
                        _ => env_fault(vars) is None,
                    }
                },
            }
        }),
{
}

/// Each setting is what its own variable says, or its default.
pub proof fn law_settings_come_from_their_variables(c: Config, vars: Seq<(String, String)>)
    requires
        is_configured(c, vars),
    ensures
        int_value(var_or(vars, "PULSE_PORT"@, "8080"@), 0, 65_535) matches Ok(n) && n == c.port,
        c.data_dir@ == var_or(vars, "PULSE_DATA_DIR"@, "./data"@),
        var_value(vars, "PULSE_ADMIN_KEY"@) matches Some(k) && c.admin_key@ == trimmed(k),
        product_keys(split_on(var_or(vars, "PULSE_SERVER_KEYS"@, ""@), ',')) matches Ok(keys)
            && keys == key_pairs(c.server_keys@),
        product_keys(split_on(var_or(vars, "PULSE_CLIENT_KEYS"@, ""@), ',')) matches Ok(keys)
            && keys == key_pairs(c.client_keys@),
        texts(c.allowed_origins@) == non_empty(
            list_entries(var_or(vars, "PULSE_ALLOWED_ORIGINS"@, ""@)),
        ),
        texts(c.allowed_hosts@) == non_empty(
            list_entries(var_or(vars, "PULSE_ALLOWED_HOSTS"@, ""@)),
        ),
        int_value(
            var_or(vars, "PULSE_COMPACT_INTERVAL_SECS"@, "60"@),
            0,
            18_446_744_073_709_551_615,
        ) matches Ok(n) && n == c.compact_interval_secs,
        int_value(
            var_or(vars, "PULSE_TTL_DAYS"@, "730"@),
            -9_223_372_036_854_775_808,
            9_223_372_036_854_775_807,
        ) matches Ok(n) && n == c.ttl_days,
        texts(c.property_denylist@) == non_empty(
            list_entries(
                var_or(
                    vars,
                    "PULSE_PROPERTY_DENYLIST"@,
                    "email,phone,name,first_name,last_name,password,token"@,
                ),
            ),
        ),
{
}

/// The directories of the log and of the partitions stand in that of the data.
pub proof fn law_directories_stand_in_that_of_the_data(c: &Config, wal: String, events: String)
    requires
        call_ensures(Config::wal_dir, (c,), wal),
        call_ensures(Config::events_dir, (c,), events),
        c.data_dir@.len() > 0,
        c.data_dir@.last() != '/',
    ensures
        wal@ == c.data_dir@ + "/"@ + "wal"@,
        events@ == c.data_dir@ + "/"@ + "events"@,
{
}

/// A variable is read as it is first given, or is its default.
pub proof fn law_variables_are_read(
    vars: &[(String, String)],
    name: &str,
    default: &str,
    r: String,
    i: int,
)
    requires
        call_ensures(env_or, (vars, name, default), r),
    ensures
        0 <= i < vars@.len() && vars@[i].0@ == name@ && (forall|j: int|
            0 <= j < i ==> (#[trigger] vars@[j]).0@ != name@) ==> r@ == vars@[i].1@,
        (forall|j: int| 0 <= j < vars@.len() ==> (#[trigger] vars@[j]).0@ != name@) ==> r@
            == default@,
{
    law_variables_have_their_first_value(vars@, name@, default@, i);
}

/// A list is read as its pieces between commas, in lower case and without the
/// white space around them; those that are nothing else are dropped.
pub proof fn law_lists_are_read(s: &str, r: Vec<String>, x: Seq<char>)
    requires
        call_ensures(csv, (s,), r),
    ensures
        texts(r@).contains(x) <==> x.len() > 0 && exists|i: int|
            0 <= i < split_on(s@, ',').len() && x == lowercase(
                trimmed(#[trigger] split_on(s@, ',')[i]),
            ),
{
    let pieces = split_on(s@, ',');
    let all = list_entries(s@);
    let p = |x: Seq<char>| x.len() > 0;
    if texts(r@).contains(x) {
        all.lemma_filter_contains_rev(p, x);
        all.lemma_filter_pred(p, all.filter(p).index_of(x));
        let i = all.index_of(x);
        assert(x == lowercase(trimmed(pieces[i])));
    }
    if x.len() > 0 && exists|i: int|
        0 <= i < pieces.len() && x == lowercase(trimmed(#[trigger] pieces[i])) {
        let i = choose|i: int|
            0 <= i < pieces.len() && x == lowercase(trimmed(#[trigger] pieces[i]));
        assert(all[i] == x);
        all.lemma_filter_contains(p, i);
    }
}

/// A configuration is read exactly if the environment is right, and each of its
/// settings is what its own variable says, or its default.
pub proof fn law_configurations_are_read(
    vars: &[(String, String)],
    r: Result<Config, String>,
)
    requires
        call_ensures(Config::from_env, (vars,), r),
    ensures
        r is Ok <==> env_fault(vars@) is None,
        r matches Err(e) ==> env_fault(vars@) == Some(e@),
        r matches Ok(c) ==> is_configured(c, vars@) && c.admin_key@.len() >= 16,
{
    if r is Ok {
        law_no_key_is_short(r->Ok_0, vars@);
    }
}

/// A list of keys is read as one key for each right entry, in order, or not at
/// all.
pub proof fn law_key_lists_are_read(s: &str, r: Result<Vec<ProductKey>, String>, i: int)
    requires
        call_ensures(parse_product_keys, (s,), r),
    ensures
        match product_keys(split_on(s@, ',')) {
            Ok(pairs) => r matches Ok(keys) && keys@.len() == pairs.len() && (0 <= i < pairs.len()
                ==> keys@[i].product@ == pairs[i].0 && keys@[i].key@ == pairs[i].1),
            Err(e) => r matches Err(f) && f@ == e,
        },
{
    if r is Ok && 0 <= i < r->Ok_0@.len() {
        law_pairs_are_those_of_the_keys(r->Ok_0@, i);
    }
}

} // verus!
