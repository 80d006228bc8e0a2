//! JSON texts: strings, objects, and what reading them gives back.
use vstd::prelude::*;

use crate::query::{join, joined};
use crate::text::{copy_text, digit_char, lex_lt, texts};

verus! {

/// serde_json's JSON object type.
#[verifier::external_type_specification]
#[verifier::external_body]
#[verifier::reject_recursive_types(K)]
#[verifier::reject_recursive_types(V)]
pub struct ExObject<K, V>(serde_json::Map<K, V>);

/// serde_json's JSON value type.
#[verifier::external_type_specification]
#[verifier::external_body]
pub struct ExValue(serde_json::Value);

/// What a JSON object holds: the compact JSON text of each key's value.
pub uninterp spec fn entries(m: serde_json::Map<String, serde_json::Value>) -> Map<
    Seq<char>,
    Seq<char>,
>;

/// The character of a hexadecimal digit.
pub open spec fn hex_char(d: int) -> char {
    if d < 10 {
        digit_char(d)
    } else {
        (d + 87) as char
    }
}

/// How a character is written in a JSON string.
pub open spec fn escaped(c: char) -> Seq<char> {
    let n = c as int;
    if c == '"' || c == '\\' {
        seq!['\\', c]
    } else if n == 8 {
        seq!['\\', 'b']
    } else if n == 9 {
        seq!['\\', 't']
    } else if n == 10 {
        seq!['\\', 'n']
    } else if n == 12 {
        seq!['\\', 'f']
    } else if n == 13 {
        seq!['\\', 'r']
    } else if n < 32 {
        seq!['\\', 'u', '0', '0', hex_char(n / 16), hex_char(n % 16)]
    } else {
        seq![c]
    }
}

/// How the characters of a text are written in a JSON string.
pub open spec fn escaped_text(s: Seq<char>) -> Seq<char>
    decreases s.len(),
{
    if s.len() == 0 {
        Seq::empty()
    } else {
        escaped(s[0]) + escaped_text(s.drop_first())
    }
}

/// A text as a JSON string.
pub open spec fn json_string(s: Seq<char>) -> Seq<char> {
    seq!['"'] + escaped_text(s) + seq!['"']
}

/// `Value::to_string` of a string: its JSON text.
#[verifier::external_body]
pub(crate) fn string_json(s: &str) -> (r: String)
    ensures
        r@ == json_string(s@),
{
    serde_json::Value::String(s.to_owned()).to_string()
}

/// The members of a JSON object, given their names and the JSON texts of their
/// values.
pub open spec fn members(names: Seq<Seq<char>>, values: Seq<Seq<char>>) -> Seq<Seq<char>> {
    Seq::new(names.len(), |i: int| json_string(names[i]) + ":"@ + values[i])
}

/// A JSON object on one line.
pub open spec fn object_line(names: Seq<Seq<char>>, values: Seq<Seq<char>>) -> Seq<char> {
    "{"@ + joined(members(names, values), ","@) + "}"@
}

/// Whether the keys are those of a set, each once and in order.
pub open spec fn are_sorted_keys(keys: Seq<Seq<char>>, set: Set<Seq<char>>) -> bool {
    &&& forall|i: int, j: int|
        0 <= i < j < keys.len() ==> lex_lt(#[trigger] keys[i], #[trigger] keys[j])
    &&& keys.to_set() == set
}

/// The keys of a set, in order.
pub open spec fn sorted_keys(set: Set<Seq<char>>) -> Seq<Seq<char>> {
    choose|keys: Seq<Seq<char>>| are_sorted_keys(keys, set)
}

/// The compact JSON text of an object with the given entries: its keys in
/// order, each with its value.
pub open spec fn object_json(entries: Map<Seq<char>, Seq<char>>) -> Seq<char> {
    let keys = sorted_keys(entries.dom());
    object_line(keys, Seq::new(keys.len(), |i: int| entries[keys[i]]))
}

/// `Map::new`: an object without entries.
#[verifier::external_body]
pub(crate) fn empty_object() -> (m: serde_json::Map<String, serde_json::Value>)
    ensures
        entries(m).dom() == Set::<Seq<char>>::empty(),
{
    serde_json::Map::new()
}

/// `Value::to_string` of an object: its compact JSON text, in which the keys
/// stand in the order of the map, which sorts them.
#[verifier::external_body]
pub(crate) fn object_text(m: serde_json::Map<String, serde_json::Value>) -> (s: String)
    ensures
        s@ == object_json(entries(m)),
{
    serde_json::Value::Object(m).to_string()
}

/// An object without entries is written `{}`.
pub proof fn law_empty_object_text(entries: Map<Seq<char>, Seq<char>>)
    requires
        entries.dom() == Set::<Seq<char>>::empty(),
    ensures
        object_json(entries) == "{}"@,
{
    let none = Seq::<Seq<char>>::empty();
    assert(none.to_set() =~= entries.dom());
    assert(are_sorted_keys(none, entries.dom()));
    let keys = sorted_keys(entries.dom());
    if keys.len() > 0 {
        assert(keys.contains(keys[0]));
        assert(keys.to_set().contains(keys[0]));
    }
    reveal_strlit("{");
    reveal_strlit("}");
    reveal_strlit("{}");
    assert(object_json(entries) =~= "{}"@);
}

/// Whether a text is free of control characters, line ends among them.
pub open spec fn is_plain(s: Seq<char>) -> bool {
    forall|i: int| 0 <= i < s.len() ==> (#[trigger] s[i] as int) >= 32
}

/// Whether none of the texts holds a control character.
pub open spec fn all_plain(v: Seq<Seq<char>>) -> bool {
    forall|i: int| 0 <= i < v.len() ==> is_plain(#[trigger] v[i])
}

proof fn lemma_plain_parts(a: Seq<char>, b: Seq<char>)
    requires
        is_plain(a),
        is_plain(b),
    ensures
        is_plain(a + b),
{
    let ab = a + b;
    assert forall|i: int| 0 <= i < ab.len() implies (#[trigger] ab[i] as int) >= 32 by {
        if i < a.len() {
            assert(ab[i] == a[i]);
        } else {
            assert(ab[i] == b[i - a.len()]);
        }
    }
}

proof fn lemma_plain_escape(c: char)
    ensures
        is_plain(escaped(c)),
{
    let e = escaped(c);
    let n = c as int;
    assert forall|i: int| 0 <= i < e.len() implies (#[trigger] e[i] as int) >= 32 by {
        if e.len() == 6 {
            assert(0 <= n / 16 <= 1 && 0 <= n % 16 < 16);
            assert(hex_char(n / 16) as int >= 32);
            assert(hex_char(n % 16) as int >= 32);
        }
    }
}

proof fn lemma_plain_escapes(s: Seq<char>)
    ensures
        is_plain(escaped_text(s)),
    decreases s.len(),
{
    if s.len() > 0 {
        lemma_plain_escape(s[0]);
        lemma_plain_escapes(s.drop_first());
        lemma_plain_parts(escaped(s[0]), escaped_text(s.drop_first()));
    }
}

/// Whatever a text holds, its JSON string has no control characters: it
/// stands on one line.
pub proof fn law_json_strings_are_plain(s: Seq<char>)
    ensures
        is_plain(json_string(s)),
{
    lemma_plain_escapes(s);
    lemma_plain_parts(seq!['"'], escaped_text(s));
    lemma_plain_parts(seq!['"'] + escaped_text(s), seq!['"']);
}

proof fn lemma_plain_join(pieces: Seq<Seq<char>>, sep: Seq<char>)
    requires
        all_plain(pieces),
        is_plain(sep),
    ensures
        is_plain(joined(pieces, sep)),
    decreases pieces.len(),
{
    if pieces.len() > 1 {
        assert(is_plain(pieces[pieces.len() - 1]));
        assert(all_plain(pieces.drop_last()));
        lemma_plain_join(pieces.drop_last(), sep);
        lemma_plain_parts(joined(pieces.drop_last(), sep), sep);
        lemma_plain_parts(joined(pieces.drop_last(), sep) + sep, pieces.last());
    } else if pieces.len() == 1 {
        assert(is_plain(pieces[0]));
    }
}

/// A JSON object stands on one line if its values do.
pub proof fn law_object_lines_are_plain(names: Seq<Seq<char>>, values: Seq<Seq<char>>)
    requires
        names.len() == values.len(),
        all_plain(values),
    ensures
        is_plain(object_line(names, values)),
{
    reveal_strlit(":");
    reveal_strlit(",");
    reveal_strlit("{");
    reveal_strlit("}");
    let all = members(names, values);
    assert forall|i: int| 0 <= i < all.len() implies is_plain(#[trigger] all[i]) by {
        law_json_strings_are_plain(names[i]);
        lemma_plain_parts(json_string(names[i]), ":"@);
        lemma_plain_parts(json_string(names[i]) + ":"@, values[i]);
    }
    lemma_plain_join(all, ","@);
    lemma_plain_parts("{"@, joined(all, ","@));
    lemma_plain_parts("{"@ + joined(all, ","@), "}"@);
}

/// A JSON object on one line, given the names of its members and the JSON
/// texts of their values.
pub fn to_object_line(names: &[String], values: &[String]) -> (line: String)
    requires
        names@.len() == values@.len(),
    ensures
        line@ == object_line(texts(names@), texts(values@)),
{
    let ghost want = members(texts(names@), texts(values@));
    let mut parts: Vec<String> = Vec::new();
    let mut i: usize = 0;
    while i < names.len()
        invariant
            i <= names.len(),
            names@.len() == values@.len(),
            want == members(texts(names@), texts(values@)),
            texts(parts@) == want.take(i as int),
        decreases names.len() - i,
    {
        let mut m = string_json(names[i].as_str());
        m.append(":");
        m.append(values[i].as_str());
        let ghost before = parts@;
        parts.push(m);
        proof {
            assert(texts(parts@) =~= texts(before).push(m@));
            assert(want.take(i + 1) =~= want.take(i as int).push(want[i as int]));
        }
        i += 1;
    }
    proof {
        assert(want.take(i as int) =~= want);
    }
    let mut line = copy_text("{");
    line.append(join(parts.as_slice(), ",").as_str());
    line.append("}");
    line
}

/// The value of a hexadecimal digit.
pub open spec fn hex_value(c: char) -> Option<int> {
    if '0' <= c <= '9' {
        Some((c as int) - 48)
    } else if 'a' <= c <= 'f' {
        Some((c as int) - 87)
    } else if 'A' <= c <= 'F' {
        Some((c as int) - 55)
    } else {
        None
    }
}

/// The number that four hexadecimal digits write.
pub open spec fn hex4_value(a: char, b: char, c: char, d: char) -> Option<int> {
    match (hex_value(a), hex_value(b), hex_value(c), hex_value(d)) {
        (Some(p), Some(q), Some(r), Some(s)) => Some(p * 4096 + q * 256 + r * 16 + s),
        _ => None,
    }
}

/// What the escape that a text starts with stands for, and how long it is.
/// Escapes of surrogates are left out: no text is written with them.
pub open spec fn read_escape(s: Seq<char>) -> Option<(char, int)> {
    if s.len() < 2 || s[0] != '\\' {
        None
    } else if s[1] == '"' || s[1] == '\\' || s[1] == '/' {
        Some((s[1], 2))
    } else if s[1] == 'b' {
        Some((8 as char, 2))
    } else if s[1] == 't' {
        Some((9 as char, 2))
    } else if s[1] == 'n' {
        Some((10 as char, 2))
    } else if s[1] == 'f' {
        Some((12 as char, 2))
    } else if s[1] == 'r' {
        Some((13 as char, 2))
    } else if s[1] == 'u' && s.len() >= 6 {
        match hex4_value(s[2], s[3], s[4], s[5]) {
            Some(n) => if n < 0xd800 || n > 0xdfff {
                Some((n as char, 6))
            } else {
                None
            },
            None => None,
        }
    } else {
        None
    }
}

/// A character in front of what was read.
pub open spec fn after_char(c: char, r: Option<(Seq<char>, Seq<char>)>) -> Option<
    (Seq<char>, Seq<char>),
> {
    match r {
        Some((text, rest)) => Some((seq![c] + text, rest)),
        None => None,
    }
}

/// What reading a JSON string gives, from behind its first quote on: its text,
/// and what follows its last quote.
pub open spec fn read_chars(s: Seq<char>) -> Option<(Seq<char>, Seq<char>)>
    decreases s.len(),
{
    if s.len() == 0 {
        None
    } else if s[0] == '"' {
        Some((Seq::empty(), s.drop_first()))
    } else if s[0] == '\\' {
        match read_escape(s) {
            Some((c, n)) => after_char(c, read_chars(s.skip(n))),
            None => None,
        }
    } else if (s[0] as int) < 32 {
        None
    } else {
        after_char(s[0], read_chars(s.drop_first()))
    }
}

/// What reading a JSON string gives: its text, and what follows it.
pub open spec fn read_string(s: Seq<char>) -> Option<(Seq<char>, Seq<char>)> {
    if s.len() > 0 && s[0] == '"' {
        read_chars(s.drop_first())
    } else {
        None
    }
}

proof fn lemma_read_escape(c: char, rest: Seq<char>)
    requires
        escaped(c).len() > 1,
    ensures
        read_escape(escaped(c) + rest) == Some((c, escaped(c).len() as int)),
        (escaped(c) + rest).skip(escaped(c).len() as int) == rest,
{
    let all = escaped(c) + rest;
    let n = c as int;
    assert forall|i: int| 0 <= i < escaped(c).len() implies #[trigger] all[i] == escaped(c)[i] by {}
    assert(all.skip(escaped(c).len() as int) =~= rest);
    assert(all[0] == escaped(c)[0]);
    assert(all[1] == escaped(c)[1]);
    if escaped(c).len() == 6 {
        assert(all[2] == '0' && all[3] == '0');
        assert(all[4] == hex_char(n / 16));
        assert(all[5] == hex_char(n % 16));
        assert(n < 32);
        assert(hex_value(hex_char(n / 16)) == Some(n / 16));
        assert(hex_value(hex_char(n % 16)) == Some(n % 16));
        assert(n / 16 * 16 + n % 16 == n);
    }
}

proof fn lemma_read_chars(s: Seq<char>, rest: Seq<char>)
    ensures
        read_chars(escaped_text(s) + seq!['"'] + rest) == Some((s, rest)),
    decreases s.len(),
{
    let all = escaped_text(s) + seq!['"'] + rest;
    if s.len() == 0 {
        assert(all.drop_first() =~= rest);
        assert(s =~= Seq::<char>::empty());
    } else {
        let c = s[0];
        let tail = escaped_text(s.drop_first()) + seq!['"'] + rest;
        lemma_read_chars(s.drop_first(), rest);
        assert(all =~= escaped(c) + tail);
        assert(s =~= seq![c] + s.drop_first());
        if escaped(c).len() > 1 {
            lemma_read_escape(c, tail);
        } else {
            assert(all.drop_first() =~= tail);
        }
    }
}

/// Reading a JSON string gives the text back, whatever it holds and whatever
/// follows.
pub proof fn law_json_string_reads_back(s: Seq<char>, rest: Seq<char>)
    ensures
        read_string(json_string(s) + rest) == Some((s, rest)),
{
    lemma_read_chars(s, rest);
    assert((json_string(s) + rest).drop_first() =~= escaped_text(s) + seq!['"'] + rest);
}

/// What reading the members of a JSON object gives, where there are `n` and
/// all their values are strings: their names and texts.
pub open spec fn read_members(s: Seq<char>, n: nat) -> Option<Seq<(Seq<char>, Seq<char>)>>
    decreases n,
{
    if n == 0 {
        None
    } else {
        match read_string(s) {
            None => None,
            Some((name, r)) => if r.len() == 0 || r[0] != ':' {
                None
            } else {
                match read_string(r.drop_first()) {
                    None => None,
                    Some((value, rest)) => if n == 1 && rest == "}"@ {
                        Some(seq![(name, value)])
                    } else if n > 1 && rest.len() > 0 && rest[0] == ',' {
                        match read_members(rest.drop_first(), (n - 1) as nat) {
                            None => None,
                            Some(more) => Some(seq![(name, value)] + more),
                        }
                    } else {
                        None
                    },
                }
            },
        }
    }
}

/// What reading a JSON object gives, where it has `n` members and all their
/// values are strings: their names and texts.
pub open spec fn read_object(s: Seq<char>, n: nat) -> Option<Seq<(Seq<char>, Seq<char>)>> {
    if s.len() > 0 && s[0] == '{' {
        read_members(s.drop_first(), n)
    } else {
        None
    }
}

/// Joined texts start with the first of them.
proof fn lemma_join_front(pieces: Seq<Seq<char>>, sep: Seq<char>)
    requires
        pieces.len() > 1,
    ensures
        joined(pieces, sep) == pieces[0] + sep + joined(pieces.drop_first(), sep),
    decreases pieces.len(),
{
    let front = pieces.drop_last();
    let back = pieces.drop_first();
    if pieces.len() == 2 {
        assert(joined(front, sep) == front[0]);
        assert(joined(back, sep) == back[0]);
    } else {
        lemma_join_front(front, sep);
        assert(front.drop_first() =~= back.drop_last());
        let middle = joined(back.drop_last(), sep);
        assert(pieces[0] + sep + middle + sep + pieces.last() =~= pieces[0] + sep + (middle + sep
            + pieces.last()));
    }
}

/// The JSON strings of texts.
pub open spec fn json_strings(v: Seq<Seq<char>>) -> Seq<Seq<char>> {
    Seq::new(v.len(), |i: int| json_string(v[i]))
}

/// Texts in pairs.
pub open spec fn paired(names: Seq<Seq<char>>, values: Seq<Seq<char>>) -> Seq<
    (Seq<char>, Seq<char>),
> {
    Seq::new(names.len(), |i: int| (names[i], values[i]))
}

proof fn lemma_read_member(name: Seq<char>, value: Seq<char>, rest: Seq<char>, s: Seq<char>)
    requires
        s == json_string(name) + (":"@ + json_string(value) + rest),
    ensures
        read_string(s) == Some((name, ":"@ + json_string(value) + rest)),
        (":"@ + json_string(value) + rest).len() > 0,
        (":"@ + json_string(value) + rest)[0] == ':',
        read_string((":"@ + json_string(value) + rest).drop_first()) == Some((value, rest)),
{
    reveal_strlit(":");
    let after = ":"@ + json_string(value) + rest;
    law_json_string_reads_back(name, after);
    assert(after.drop_first() =~= json_string(value) + rest);
    law_json_string_reads_back(value, rest);
}

proof fn lemma_regroup(
    a: Seq<char>,
    b: Seq<char>,
    c: Seq<char>,
    d: Seq<char>,
    e: Seq<char>,
    f: Seq<char>,
)
    ensures
        a + b + c + d + e + f == a + (b + c + (d + (e + f))),
        a + b + c + d == a + (b + c + d),
{
    assert(a + b + c + d + e + f =~= a + (b + c + (d + (e + f))));
    assert(a + b + c + d =~= a + (b + c + d));
}

proof fn lemma_members_go_on(
    s: Seq<char>,
    n: nat,
    name: Seq<char>,
    after: Seq<char>,
    value: Seq<char>,
    rest: Seq<char>,
    more: Seq<(Seq<char>, Seq<char>)>,
)
    requires
        n > 1,
        read_string(s) == Some((name, after)),
        after.len() > 0 && after[0] == ':',
        read_string(after.drop_first()) == Some((value, rest)),
        rest.len() > 0 && rest[0] == ',',
        read_members(rest.drop_first(), (n - 1) as nat) == Some(more),
    ensures
        read_members(s, n) == Some(seq![(name, value)] + more),
{
}

proof fn lemma_read_members(names: Seq<Seq<char>>, values: Seq<Seq<char>>)
    requires
        names.len() == values.len(),
        names.len() > 0,
    ensures
        read_members(
            joined(members(names, json_strings(values)), ","@) + "}"@,
            names.len(),
        ) == Some(paired(names, values)),
    decreases names.len(),
{
    let all = members(names, json_strings(values));
    let s = joined(all, ","@) + "}"@;
    let name = json_string(names[0]);
    let value = json_string(values[0]);
    assert(all[0] == name + ":"@ + value);
    if names.len() == 1 {
        lemma_regroup(name, ":"@, value, "}"@, "}"@, "}"@);
        lemma_read_member(names[0], values[0], "}"@, s);
        assert(paired(names, values) =~= seq![(names[0], values[0])]);
    } else {
        let more_names = names.drop_first();
        let more_values = values.drop_first();
        let body = joined(all.drop_first(), ","@);
        let rest = ","@ + (body + "}"@);
        lemma_join_front(all, ","@);
        lemma_regroup(name, ":"@, value, ","@, body, "}"@);
        lemma_read_member(names[0], values[0], rest, s);
        lemma_read_members(more_names, more_values);
        assert(members(more_names, json_strings(more_values)) =~= all.drop_first());
        reveal_strlit(",");
        assert(rest.drop_first() =~= body + "}"@);
        lemma_members_go_on(
            s,
            names.len(),
            names[0],
            ":"@ + value + rest,
            values[0],
            rest,
            paired(more_names, more_values),
        );
        assert(paired(names, values) =~= seq![(names[0], values[0])] + paired(
            more_names,
            more_values,
        ));
    }
}

/// Reading an object whose values are strings gives back the names and the
/// texts that it was written from.
pub proof fn law_object_line_reads_back(names: Seq<Seq<char>>, values: Seq<Seq<char>>)
    requires
        names.len() == values.len(),
        names.len() > 0,
    ensures
        read_object(object_line(names, json_strings(values)), names.len()) == Some(
            paired(names, values),
        ),
{
    reveal_strlit("{");
    let body = joined(members(names, json_strings(values)), ","@);
    assert(object_line(names, json_strings(values)).drop_first() =~= body + "}"@);
    lemma_read_members(names, values);
}

/// An object's line has a member for each name and value, in order: the name as
/// a JSON string, a colon, and the value as it is.
pub proof fn law_objects_have_their_members(
    names: Seq<Seq<char>>,
    values: Seq<Seq<char>>,
    i: int,
)
    requires
        names.len() == values.len(),
        0 <= i < names.len(),
    ensures
        object_line(names, values) == "{"@ + joined(members(names, values), ","@) + "}"@,
        members(names, values).len() == names.len(),
        members(names, values)[i] == json_string(names[i]) + ":"@ + values[i],
{
}

} // verus!
