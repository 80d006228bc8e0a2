//! Events: what comes in, what is stored, and how one becomes the other.
use vstd::prelude::*;

use crate::json::{empty_object, object_text, string_json, to_object_line};
use crate::json::{entries, is_plain, json_strings, object_json, object_line, paired, read_object};
use crate::json::{law_json_strings_are_plain, law_object_line_reads_back};
use crate::json::law_object_lines_are_plain;
use crate::query::{column_names, wal_schema};
use crate::text::{all_ascii, ascii_lowercase, lowercase, opt_text, text_or_empty, texts, trimmed};
use crate::text::{contains_text, copy_text, same_text, to_lowercase, trim};
use crate::time::{date_of, date_text, day_of, has_plain_year, law_date_starts_the_text};
use crate::time::{rfc3339_text, rfc3339_value, Instant};

verus! {

/// `Map::retain` with `keeps`: the entries whose key is not denied stay as
/// they are, the others go.
#[verifier::external_body]
fn retain(m: &mut serde_json::Map<String, serde_json::Value>, denylist: &[String])
    ensures
        entries(*final(m)) == without_denied(entries(*old(m)), texts(denylist@)),
{
    m.retain(|k, _| keeps(k, denylist));
}

/// Whether a key is on the list, its letters taken in lower case.
pub open spec fn is_denied(key: Seq<char>, denylist: Seq<Seq<char>>) -> bool {
    denylist.contains(lowercase(key))
}

/// The entries whose key is not denied.
pub open spec fn without_denied(
    entries: Map<Seq<char>, Seq<char>>,
    denylist: Seq<Seq<char>>,
) -> Map<Seq<char>, Seq<char>> {
    entries.remove_keys(Set::new(|k: Seq<char>| is_denied(k, denylist)))
}

/// Whether a key stays. Of a key that is all ASCII, letters count the same in
/// upper and lower case.
pub fn keeps(key: &str, denylist: &[String]) -> (r: bool)
    ensures
        r == !is_denied(key@, texts(denylist@)),
        all_ascii(key@) ==> r == !texts(denylist@).contains(ascii_lowercase(key@)),
{
    !contains_text(denylist, to_lowercase(key).as_str())
}

/// PII guard: drops denied keys, at the top level of the object.
pub fn sanitize(
    m: serde_json::Map<String, serde_json::Value>,
    denylist: &[String],
) -> (r: serde_json::Map<String, serde_json::Value>)
    ensures
        entries(r) == without_denied(entries(m), texts(denylist@)),
{
    let mut m = m;
    retain(&mut m, denylist);
    m
}

/// An event as a product sends it.
pub struct IncomingEvent {
    pub product: Option<String>,
    pub event: Option<String>,
    /// RFC 3339; the time of receipt where there is none.
    pub occurred_at: Option<String>,
    pub anonymous_id: Option<String>,
    pub user_id: Option<String>,
    pub session_id: Option<String>,
    /// `client` or `server`; `server` where there is none.
    pub source: Option<String>,
    pub properties: Option<serde_json::Map<String, serde_json::Value>>,
    pub context: Option<serde_json::Map<String, serde_json::Value>>,
}

/// The texts of an event as a product sends it.
pub struct Incoming {
    pub product: Option<Seq<char>>,
    pub event: Option<Seq<char>>,
    pub occurred_at: Option<Seq<char>>,
    pub anonymous_id: Option<Seq<char>>,
    pub user_id: Option<Seq<char>>,
    pub session_id: Option<Seq<char>>,
    pub source: Option<Seq<char>>,
    pub properties: Map<Seq<char>, Seq<char>>,
    pub context: Map<Seq<char>, Seq<char>>,
}

/// The entries of an object; none where there is no object.
pub open spec fn opt_entries(
    m: Option<serde_json::Map<String, serde_json::Value>>,
) -> Map<Seq<char>, Seq<char>> {
    match m {
        Some(m) => entries(m),
        None => Map::empty(),
    }
}

impl View for IncomingEvent {
    type V = Incoming;

    open spec fn view(&self) -> Incoming {
        Incoming {
            product: opt_text(self.product),
            event: opt_text(self.event),
            occurred_at: opt_text(self.occurred_at),
            anonymous_id: opt_text(self.anonymous_id),
            user_id: opt_text(self.user_id),
            session_id: opt_text(self.session_id),
            source: opt_text(self.source),
            properties: opt_entries(self.properties),
            context: opt_entries(self.context),
        }
    }
}

/// An event as it is stored: one line of the log. Every column is text:
/// instants are RFC 3339 of UTC with milliseconds, properties and context are
/// JSON, and the date is that of the instant at which the event occurred.
pub struct StoredEvent {
    pub product: String,
    pub event: String,
    pub occurred_at: String,
    pub received_at: String,
    pub anonymous_id: String,
    pub user_id: String,
    pub session_id: String,
    pub source: String,
    pub properties: String,
    pub context: String,
    pub date: String,
}

/// The texts of a stored event.
pub struct Stored {
    pub product: Seq<char>,
    pub event: Seq<char>,
    pub occurred_at: Seq<char>,
    pub received_at: Seq<char>,
    pub anonymous_id: Seq<char>,
    pub user_id: Seq<char>,
    pub session_id: Seq<char>,
    pub source: Seq<char>,
    pub properties: Seq<char>,
    pub context: Seq<char>,
    pub date: Seq<char>,
}

impl View for StoredEvent {
    type V = Stored;

    open spec fn view(&self) -> Stored {
        Stored {
            product: self.product@,
            event: self.event@,
            occurred_at: self.occurred_at@,
            received_at: self.received_at@,
            anonymous_id: self.anonymous_id@,
            user_id: self.user_id@,
            session_id: self.session_id@,
            source: self.source@,
            properties: self.properties@,
            context: self.context@,
            date: self.date@,
        }
    }
}

/// Whether a character may stand in the name of a product.
pub open spec fn is_product_char(c: char) -> bool {
    ||| 'a' <= c <= 'z'
    ||| 'A' <= c <= 'Z'
    ||| '0' <= c <= '9'
    ||| c == '-'
    ||| c == '_'
}

/// Whether every character may stand in the name of a product.
pub open spec fn all_product_chars(s: Seq<char>) -> bool {
    forall|i: int| 0 <= i < s.len() ==> is_product_char(#[trigger] s[i])
}

/// Whether every character may stand in the name of a product.
pub fn has_product_chars(s: &str) -> (r: bool)
    ensures
        r == all_product_chars(s@),
{
    let x = crate::text::chars_of(s);
    let mut i: usize = 0;
    while i < x.len()
        invariant
            i <= x.len(),
            x@ == s@,
            forall|j: int| 0 <= j < i ==> is_product_char(#[trigger] x@[j]),
        decreases x.len() - i,
    {
        let c: char = x[i];
        if !(('a' <= c && c <= 'z') || ('A' <= c && c <= 'Z') || ('0' <= c && c <= '9') || c == '-'
            || c == '_') {
            return false;
        }
        i += 1;
    }
    true
}

/// Whether a text names a product: one to 64 letters, digits, `_` and `-`.
pub open spec fn is_product(s: Seq<char>) -> bool {
    1 <= s.len() <= 64 && all_product_chars(s)
}

/// Whether a text names an event: one to 200 bytes.
pub open spec fn is_event_name(s: Seq<char>) -> bool {
    s.len() > 0 && vstd::utf8::encode_utf8(s).len() <= 200
}

/// When an event occurred: what its text says, or the time of receipt.
pub open spec fn occurrence(at: Option<Seq<char>>, now: Instant) -> Option<(int, int)> {
    match at {
        Some(s) => match rfc3339_value(s) {
            Some(p) => Some((p.0 as int, p.1 as int)),
            None => None,
        },
        None => Some((now.seconds(), now.nanoseconds())),
    }
}

/// Where an event comes from, if it says so in a known way.
pub open spec fn known_source(source: Option<Seq<char>>) -> Option<Seq<char>> {
    match source {
        None => Some("server"@),
        Some(s) => if s == "server"@ || s == "client"@ {
            Some(s)
        } else {
            None
        },
    }
}

/// The stored form of an event, or why it is rejected, given the instant that
/// its text for it reads as and the JSON texts of its objects. Product and
/// name are taken without the white space around them; the first fault is the
/// reason.
pub open spec fn assembled(
    ev: Incoming,
    at: Option<(int, int)>,
    now: Instant,
    properties: Seq<char>,
    context: Seq<char>,
) -> Result<Stored, Seq<char>> {
    let product = trimmed(text_or_empty(ev.product));
    let event = trimmed(text_or_empty(ev.event));
    if !is_product(product) {
        Err("invalid product: [a-zA-Z0-9_-]{1,64} required"@)
    } else if !is_event_name(event) {
        Err("invalid event name: 1..200 chars required"@)
    } else {
        match at {
            None => Err("invalid occurred_at: RFC3339 required"@),
            Some(at) => match known_source(ev.source) {
                None => Err("invalid source '"@ + text_or_empty(ev.source) + "': client|server"@),
                Some(source) => Ok(
                    Stored {
                        product,
                        event,
                        occurred_at: rfc3339_text(at.0, at.1),
                        received_at: rfc3339_text(now.seconds(), now.nanoseconds()),
                        anonymous_id: text_or_empty(ev.anonymous_id),
                        user_id: text_or_empty(ev.user_id),
                        session_id: text_or_empty(ev.session_id),
                        source,
                        properties,
                        context,
                        date: date_text(date_of(day_of(at.0))),
                    },
                ),
            },
        }
    }
}

/// The stored form of an event, or why it is rejected. Denied keys are dropped
/// from its objects.
pub open spec fn normalized(
    ev: Incoming,
    now: Instant,
    denylist: Seq<Seq<char>>,
) -> Result<Stored, Seq<char>> {
    assembled(
        ev,
        occurrence(ev.occurred_at, now),
        now,
        object_json(without_denied(ev.properties, denylist)),
        object_json(without_denied(ev.context, denylist)),
    )
}

fn or_empty(s: Option<String>) -> (r: String)
    ensures
        r@ == text_or_empty(opt_text(s)),
{
    match s {
        Some(t) => t,
        None => String::new(),
    }
}

fn or_empty_object(
    m: Option<serde_json::Map<String, serde_json::Value>>,
) -> (r: serde_json::Map<String, serde_json::Value>)
    ensures
        entries(r) == opt_entries(m),
{
    match m {
        Some(m) => m,
        None => {
            let r = empty_object();
            proof {
                assert(entries(r) =~= Map::<Seq<char>, Seq<char>>::empty());
            }
            r
        },
    }
}

/// The instant of an optional value.
pub open spec fn opt_instant(at: Option<Instant>) -> Option<(int, int)> {
    match at {
        Some(t) => Some((t.seconds(), t.nanoseconds())),
        None => None,
    }
}

/// The stored form of an event, or why it is rejected. `at` is the instant at
/// which it occurred, `None` where the event's text for it is not one;
/// `properties` and `context` are the JSON texts of its objects.
pub fn assemble(
    ev: IncomingEvent,
    at: Option<Instant>,
    now: &Instant,
    properties: String,
    context: String,
) -> (r: Result<StoredEvent, String>)
    ensures
        match r {
            Ok(s) => assembled(ev@, opt_instant(at), *now, properties@, context@) == Ok::<
                Stored,
                Seq<char>,
            >(s@),
            Err(e) => assembled(ev@, opt_instant(at), *now, properties@, context@) == Err::<
                Stored,
                Seq<char>,
            >(e@),
        },
        r matches Ok(s) ==> (opt_instant(at) matches Some(p) && (has_plain_year(p.0)
            ==> (rfc3339_value(s.occurred_at@) matches Some(q) && q.0 == p.0 && q.1 == p.1
            / 1_000_000 * 1_000_000))),
        r matches Ok(s) ==> (has_plain_year(now.seconds()) ==> (rfc3339_value(
            s.received_at@,
        ) matches Some(q) && q.0 == now.seconds() && q.1 == now.nanoseconds() / 1_000_000
            * 1_000_000)),
{
    let product = trim(or_empty(ev.product).as_str());
    let n: usize = crate::text::chars_of(product.as_str()).len();
    if n == 0 || n > 64 || !has_product_chars(product.as_str()) {
        return Err(copy_text("invalid product: [a-zA-Z0-9_-]{1,64} required"));
    }
    let event = trim(or_empty(ev.event).as_str());
    if event.as_str().is_empty() || event.as_str().as_bytes().len() > 200 {
        return Err(copy_text("invalid event name: 1..200 chars required"));
    }
    let at: Instant = match at {
        Some(t) => t,
        None => {
            return Err(copy_text("invalid occurred_at: RFC3339 required"));
        },
    };
    let source = match ev.source {
        None => copy_text("server"),
        Some(s) => {
            if same_text(s.as_str(), "server") || same_text(s.as_str(), "client") {
                s
            } else {
                let mut e = copy_text("invalid source '");
                e.append(s.as_str());
                e.append("': client|server");
                return Err(e);
            }
        },
    };
    Ok(
        StoredEvent {
            date: at.date(),
            occurred_at: at.rfc3339(),
            received_at: now.rfc3339(),
            anonymous_id: or_empty(ev.anonymous_id),
            user_id: or_empty(ev.user_id),
            session_id: or_empty(ev.session_id),
            source,
            properties,
            context,
            product,
            event,
        },
    )
}

/// The stored form of an event, or why it is rejected. What was stored of the
/// instant reads back to the millisecond, where its year has four digits.
pub fn normalize(ev: IncomingEvent, now: &Instant, denylist: &[String]) -> (r: Result<
    StoredEvent,
    String,
>)
    ensures
        match r {
            Ok(s) => normalized(ev@, *now, texts(denylist@)) == Ok::<Stored, Seq<char>>(s@),
            Err(e) => normalized(ev@, *now, texts(denylist@)) == Err::<Stored, Seq<char>>(e@),
        },
        r matches Ok(s) ==> (occurrence(ev@.occurred_at, *now) matches Some(p) && (has_plain_year(
            p.0,
        ) ==> (rfc3339_value(s.occurred_at@) matches Some(q)
            && q.0 == p.0 && q.1 == p.1 / 1_000_000 * 1_000_000))),
        r matches Ok(s) ==> (has_plain_year(now.seconds()) ==> (rfc3339_value(
            s.received_at@,
        ) matches Some(q) && q.0 == now.seconds() && q.1 == now.nanoseconds() / 1_000_000
            * 1_000_000)),
{
    let mut ev = ev;
    let at: Option<Instant> = match &ev.occurred_at {
        Some(s) => Instant::parse_rfc3339(s.as_str()),
        None => Some(*now),
    };
    let properties = sanitize(or_empty_object(ev.properties.take()), denylist);
    let context = sanitize(or_empty_object(ev.context.take()), denylist);
    assemble(ev, at, now, object_text(properties), object_text(context))
}

impl Stored {
    /// The texts of the columns, in the order of the table.
    pub open spec fn columns(self) -> Seq<Seq<char>> {
        seq![
            self.product,
            self.event,
            self.occurred_at,
            self.received_at,
            self.anonymous_id,
            self.user_id,
            self.session_id,
            self.source,
            self.properties,
            self.context,
            self.date,
        ]
    }

    /// The line of the log for an event: an object with every column of the
    /// table, in its order, as a JSON string.
    pub open spec fn line(self) -> Seq<char> {
        object_line(column_names(), json_strings(self.columns()))
    }
}

impl StoredEvent {
    /// The line of the log for the event, without its line end. It is free of
    /// control characters, so it is one line.
    pub fn to_line(&self) -> (line: String)
        ensures
            line@ == self@.line(),
            is_plain(line@),
    {
        let mut values: Vec<String> = Vec::new();
        values.push(string_json(self.product.as_str()));
        values.push(string_json(self.event.as_str()));
        values.push(string_json(self.occurred_at.as_str()));
        values.push(string_json(self.received_at.as_str()));
        values.push(string_json(self.anonymous_id.as_str()));
        values.push(string_json(self.user_id.as_str()));
        values.push(string_json(self.session_id.as_str()));
        values.push(string_json(self.source.as_str()));
        values.push(string_json(self.properties.as_str()));
        values.push(string_json(self.context.as_str()));
        values.push(string_json(self.date.as_str()));
        let names = wal_schema();
        proof {
            let columns = self@.columns();
            assert(texts(values@) =~= json_strings(columns));
            assert(names@.len() == texts(names@).len());
            law_lines_are_plain(self@);
        }
        to_object_line(names.as_slice(), values.as_slice())
    }
}

/// What is stored of an event is valid: its product and its name are, it comes
/// from a client or a server, and of properties and context no denied key is
/// left.
pub proof fn law_stored_events_are_valid(ev: Incoming, now: Instant, denylist: Seq<Seq<char>>)
    requires
        normalized(ev, now, denylist) is Ok,
    ensures
        ({
            let stored = normalized(ev, now, denylist)->Ok_0;
            &&& is_product(stored.product)
            &&& is_event_name(stored.event)
            &&& stored.source == "server"@ || stored.source == "client"@
            &&& stored.properties == object_json(without_denied(ev.properties, denylist))
            &&& stored.context == object_json(without_denied(ev.context, denylist))
        }),
{
}

/// An event that does not say when it occurred did so when it was received.
pub proof fn law_missing_time_is_that_of_receipt(
    ev: Incoming,
    now: Instant,
    denylist: Seq<Seq<char>>,
)
    requires
        ev.occurred_at is None,
        normalized(ev, now, denylist) is Ok,
    ensures
        normalized(ev, now, denylist)->Ok_0.occurred_at == normalized(
            ev,
            now,
            denylist,
        )->Ok_0.received_at,
{
}

/// The date of an event is how the text for its time starts, where the year
/// has four digits.
pub proof fn law_date_is_that_of_the_event(ev: Incoming, now: Instant, denylist: Seq<Seq<char>>)
    requires
        normalized(ev, now, denylist) is Ok,
        occurrence(ev.occurred_at, now) matches Some(at) && has_plain_year(at.0),
    ensures
        normalized(ev, now, denylist)->Ok_0.occurred_at.take(10) == normalized(
            ev,
            now,
            denylist,
        )->Ok_0.date,
{
    let at = occurrence(ev.occurred_at, now)->0;
    law_date_starts_the_text(at.0, at.1);
}

/// Of an object's entries, exactly those with a denied key are dropped; the
/// others keep their values.
pub proof fn law_denied_keys_are_dropped(
    entries: Map<Seq<char>, Seq<char>>,
    denylist: Seq<Seq<char>>,
    key: Seq<char>,
)
    ensures
        without_denied(entries, denylist).dom().contains(key) <==> entries.dom().contains(key)
            && !is_denied(key, denylist),
        without_denied(entries, denylist).dom().contains(key) ==> without_denied(
            entries,
            denylist,
        )[key] == entries[key],
{
}

/// Whatever an event holds, its line in the log has no line end in it.
pub proof fn law_lines_are_plain(e: Stored)
    ensures
        is_plain(e.line()),
{
    let values = json_strings(e.columns());
    assert forall|i: int| 0 <= i < values.len() implies is_plain(#[trigger] values[i]) by {
        law_json_strings_are_plain(e.columns()[i]);
    }
    law_object_lines_are_plain(column_names(), values);
}

/// Reading the line of an event gives back every column of the table with the
/// text that the event has for it.
pub proof fn law_line_reads_back(e: Stored)
    ensures
        read_object(e.line(), 11) == Some(paired(column_names(), e.columns())),
{
    law_object_line_reads_back(column_names(), e.columns());
}

/// Events with the same line are equal.
pub proof fn law_line_tells_events_apart(a: Stored, b: Stored)
    requires
        a.line() == b.line(),
    ensures
        a == b,
{
    law_line_reads_back(a);
    law_line_reads_back(b);
    let p = paired(column_names(), a.columns());
    let q = paired(column_names(), b.columns());
    assert forall|i: int| 0 <= i < 11 implies #[trigger] a.columns()[i] == b.columns()[i] by {
        assert(p[i] == q[i]);
    }
    assert(a.product == a.columns()[0]);
    assert(a.event == a.columns()[1]);
    assert(a.occurred_at == a.columns()[2]);
    assert(a.received_at == a.columns()[3]);
    assert(a.anonymous_id == a.columns()[4]);
    assert(a.user_id == a.columns()[5]);
    assert(a.session_id == a.columns()[6]);
    assert(a.source == a.columns()[7]);
    assert(a.properties == a.columns()[8]);
    assert(a.context == a.columns()[9]);
    assert(a.date == a.columns()[10]);
}

/// Whether a text is a product's name: one to 64 of the letters `a` to `z` and
/// `A` to `Z`, the digits, the hyphen and the underscore.
spec fn names_a_product(s: Seq<char>) -> bool {
    &&& 1 <= s.len() <= 64
    &&& forall|i: int|
        0 <= i < s.len() ==> {
            let c = (#[trigger] s[i]) as int;
            48 <= c <= 57 || 65 <= c <= 90 || 97 <= c <= 122 || c == 45 || c == 95
        }
}

/// Which events are accepted: those with a product's name of one to 64
/// letters, digits, hyphens and underscores and an event's name of one to 200
/// bytes, both without the white space around them, with an instant for the
/// time, and with a source that is missing, `server` or `client`.
pub proof fn law_valid_events_are_accepted(
    ev: Incoming,
    at: Option<(int, int)>,
    now: Instant,
    properties: Seq<char>,
    context: Seq<char>,
)
    ensures
        assembled(ev, at, now, properties, context) is Ok <==> {
            &&& ev.product matches Some(p) && 1 <= trimmed(p).len() <= 64 && (forall|i: int|
                0 <= i < trimmed(p).len() ==> {
                    let c = (#[trigger] trimmed(p)[i]) as int;
                    48 <= c <= 57 || 65 <= c <= 90 || 97 <= c <= 122 || c == 45 || c == 95
                })
            &&& ev.event matches Some(e) && trimmed(e).len() > 0 && vstd::utf8::encode_utf8(
                trimmed(e),
            ).len() <= 200
            &&& at is Some
            &&& ev.source is None || ev.source == Some("server"@) || ev.source == Some("client"@)
        },
{
    let none = Seq::<char>::empty();
    assert(trimmed(none) == none);
    let p = trimmed(text_or_empty(ev.product));
    assert(is_product(p) <==> names_a_product(p)) by {
        if is_product(p) {
            assert forall|i: int| 0 <= i < p.len() implies {
                let c = (#[trigger] p[i]) as int;
                48 <= c <= 57 || 65 <= c <= 90 || 97 <= c <= 122 || c == 45 || c == 95
            } by {
                assert(is_product_char(p[i]));
            }
        }
        if names_a_product(p) {
            assert forall|i: int| 0 <= i < p.len() implies is_product_char(#[trigger] p[i]) by {
                let c = p[i] as int;
                assert(48 <= c <= 57 || 65 <= c <= 90 || 97 <= c <= 122 || c == 45 || c == 95);
            }
        }
    }
}

/// Why an event is rejected: the product is at fault, or else the name, or else
/// the time, or else the source, which is told.
pub proof fn law_the_first_fault_is_told(
    ev: Incoming,
    at: Option<(int, int)>,
    now: Instant,
    properties: Seq<char>,
    context: Seq<char>,
)
    requires
        assembled(ev, at, now, properties, context) is Err,
    ensures
        ({
            let reason = assembled(ev, at, now, properties, context)->Err_0;
            let product_is_valid = is_product(trimmed(text_or_empty(ev.product)));
            let name_is_valid = is_event_name(trimmed(text_or_empty(ev.event)));
            &&& !product_is_valid <==> reason
                == "invalid product: [a-zA-Z0-9_-]{1,64} required"@
            &&& product_is_valid && !name_is_valid <==> reason
                == "invalid event name: 1..200 chars required"@
            &&& product_is_valid && name_is_valid && at is None <==> reason
                == "invalid occurred_at: RFC3339 required"@
            &&& product_is_valid && name_is_valid && at is Some ==> (ev.source matches Some(s)
                && reason == "invalid source '"@ + s + "': client|server"@)
        }),
{
    reveal_strlit("invalid product: [a-zA-Z0-9_-]{1,64} required");
    reveal_strlit("invalid event name: 1..200 chars required");
    reveal_strlit("invalid occurred_at: RFC3339 required");
    reveal_strlit("invalid source '");
    let reason = assembled(ev, at, now, properties, context)->Err_0;
    let a = "invalid product: [a-zA-Z0-9_-]{1,64} required"@;
    let b = "invalid event name: 1..200 chars required"@;
    let c = "invalid occurred_at: RFC3339 required"@;
    assert(a[8] == 'p' && b[8] == 'e' && c[8] == 'o');
    let d = "invalid source '"@ + text_or_empty(ev.source) + "': client|server"@;
    assert(d[8] == 's');
}

/// A text where it was sent, and none otherwise.
pub open spec fn is_sent(stored: Seq<char>, sent: Option<Seq<char>>) -> bool {
    match sent {
        Some(s) => stored == s,
        None => stored.len() == 0,
    }
}

/// What is stored of an accepted event: what was sent, as it was sent, with
/// product and name without the white space around them; the instant at which
/// it occurred and its day; the instant of receipt, whenever it occurred; and
/// `server` where no source was sent.
pub proof fn law_stored_events_are_what_was_sent(
    ev: Incoming,
    at: Option<(int, int)>,
    now: Instant,
    properties: Seq<char>,
    context: Seq<char>,
)
    requires
        assembled(ev, at, now, properties, context) is Ok,
    ensures
        ({
            let stored = assembled(ev, at, now, properties, context)->Ok_0;
            &&& ev.product matches Some(p) && stored.product == trimmed(p)
            &&& ev.event matches Some(e) && stored.event == trimmed(e)
            &&& at matches Some(t) && stored.occurred_at == rfc3339_text(t.0, t.1) && stored.date
                == date_text(date_of(day_of(t.0)))
            &&& stored.received_at == rfc3339_text(now.seconds(), now.nanoseconds())
            &&& is_sent(stored.anonymous_id, ev.anonymous_id)
            &&& is_sent(stored.user_id, ev.user_id)
            &&& is_sent(stored.session_id, ev.session_id)
            &&& match ev.source {
                Some(s) => stored.source == s,
                None => stored.source == "server"@,
            }
            &&& stored.properties == properties
            &&& stored.context == context
        }),
{
    let none = Seq::<char>::empty();
    assert(trimmed(none) == none);
}

/// What an event comes to is what it comes to with the instant that its text
/// reads as, the time of receipt where it has none, and the JSON texts of its
/// properties and its context without the entries whose key, in lower case, is
/// on the list.
pub proof fn law_normalizing_reads_time_and_objects(
    ev: Incoming,
    now: Instant,
    denylist: Seq<Seq<char>>,
    properties: Map<Seq<char>, Seq<char>>,
    context: Map<Seq<char>, Seq<char>>,
)
    requires
        forall|k: Seq<char>| #[trigger]
            properties.dom().contains(k) <==> ev.properties.dom().contains(k)
                && !denylist.contains(lowercase(k)),
        forall|k: Seq<char>| #[trigger]
            properties.dom().contains(k) ==> properties[k] == ev.properties[k],
        forall|k: Seq<char>| #[trigger]
            context.dom().contains(k) <==> ev.context.dom().contains(k) && !denylist.contains(
                lowercase(k),
            ),
        forall|k: Seq<char>| #[trigger]
            context.dom().contains(k) ==> context[k] == ev.context[k],
    ensures
        ({
            let at: Option<(int, int)> = match ev.occurred_at {
                None => Some((now.seconds(), now.nanoseconds())),
                Some(s) => match rfc3339_value(s) {
                    None => None,
                    Some(v) => Some((v.0 as int, v.1 as int)),
                },
            };
            normalized(ev, now, denylist) == assembled(
                ev,
                at,
                now,
                object_json(properties),
                object_json(context),
            )
        }),
{
    assert(without_denied(ev.properties, denylist) =~= properties);
    assert(without_denied(ev.context, denylist) =~= context);
}

/// The time of receipt is stored as it is, whatever an event says of its own
/// time: two events that are received together have it in common.
pub proof fn law_receipt_does_not_depend_on_the_event(
    a: Incoming,
    b: Incoming,
    now: Instant,
    denylist: Seq<Seq<char>>,
)
    requires
        normalized(a, now, denylist) is Ok,
        normalized(b, now, denylist) is Ok,
    ensures
        normalized(a, now, denylist)->Ok_0.received_at == rfc3339_text(
            now.seconds(),
            now.nanoseconds(),
        ),
        normalized(a, now, denylist)->Ok_0.received_at == normalized(
            b,
            now,
            denylist,
        )->Ok_0.received_at,
{
}

/// Reading the line of an event gives, under the name of each column, what the
/// event has for it.
pub proof fn law_line_has_every_column_under_its_name(e: Stored)
    ensures
        read_object(e.line(), 11) == Some(
            seq![
                ("product"@, e.product),
                ("event"@, e.event),
                ("occurred_at"@, e.occurred_at),
                ("received_at"@, e.received_at),
                ("anonymous_id"@, e.anonymous_id),
                ("user_id"@, e.user_id),
                ("session_id"@, e.session_id),
                ("source"@, e.source),
                ("properties"@, e.properties),
                ("context"@, e.context),
                ("date"@, e.date),
            ],
        ),
{
    law_line_reads_back(e);
    assert(paired(column_names(), e.columns()) =~= seq![
        ("product"@, e.product),
        ("event"@, e.event),
        ("occurred_at"@, e.occurred_at),
        ("received_at"@, e.received_at),
        ("anonymous_id"@, e.anonymous_id),
        ("user_id"@, e.user_id),
        ("session_id"@, e.session_id),
        ("source"@, e.source),
        ("properties"@, e.properties),
        ("context"@, e.context),
        ("date"@, e.date),
    ]);
}

/// A key is denied exactly if it is on the list once it is in lower case, and
/// what is not denied stays with its value.
pub proof fn law_keys_are_denied_by_their_lower_case(
    entries: Map<Seq<char>, Seq<char>>,
    denylist: Seq<Seq<char>>,
    key: Seq<char>,
)
    ensures
        is_denied(key, denylist) <==> denylist.contains(lowercase(key)),
        denylist.contains(lowercase(key)) ==> !without_denied(entries, denylist).dom().contains(
            key,
        ),
        !denylist.contains(lowercase(key)) && entries.dom().contains(key) ==> without_denied(
            entries,
            denylist,
        ).dom().contains(key) && without_denied(entries, denylist)[key] == entries[key],
        !entries.dom().contains(key) ==> !without_denied(entries, denylist).dom().contains(key),
{
}

/// The view of an event that comes in has what each of its fields has.
pub proof fn law_views_have_every_field(ev: IncomingEvent, stored: StoredEvent)
    ensures
        ev@.product == opt_text(ev.product),
        ev@.event == opt_text(ev.event),
        ev@.occurred_at == opt_text(ev.occurred_at),
        ev@.anonymous_id == opt_text(ev.anonymous_id),
        ev@.user_id == opt_text(ev.user_id),
        ev@.session_id == opt_text(ev.session_id),
        ev@.source == opt_text(ev.source),
        ev.properties matches Some(m) ==> ev@.properties == entries(m),
        ev.properties is None ==> ev@.properties.dom() == Set::<Seq<char>>::empty(),
        ev.context matches Some(m) ==> ev@.context == entries(m),
        ev.context is None ==> ev@.context.dom() == Set::<Seq<char>>::empty(),
        stored@.product == stored.product@,
        stored@.event == stored.event@,
        stored@.occurred_at == stored.occurred_at@,
        stored@.received_at == stored.received_at@,
        stored@.anonymous_id == stored.anonymous_id@,
        stored@.user_id == stored.user_id@,
        stored@.session_id == stored.session_id@,
        stored@.source == stored.source@,
        stored@.properties == stored.properties@,
        stored@.context == stored.context@,
        stored@.date == stored.date@,
{
    assert(Map::<Seq<char>, Seq<char>>::empty().dom() =~= Set::<Seq<char>>::empty());
}

/// An instant that is there is seen by its seconds and nanoseconds.
pub proof fn law_instants_are_seen_as_they_are(t: Instant)
    ensures
        opt_instant(Some(t)) == Some((t.seconds(), t.nanoseconds())),
        opt_instant(None) is None,
{
}

/// An event is stored with the instant at which it occurred and with that of
/// its receipt, each of which reads back to the millisecond where its year has
/// four digits, and with what was sent of the rest.
pub proof fn law_assembled_events_have_both_times(
    ev: IncomingEvent,
    at: Option<Instant>,
    now: &Instant,
    properties: String,
    context: String,
    r: Result<StoredEvent, String>,
)
    requires
        call_ensures(assemble, (ev, at, now, properties, context), r),
    ensures
        r is Ok ==> at is Some,
        r matches Ok(s) ==> s.received_at@ == rfc3339_text(now.seconds(), now.nanoseconds()),
        r matches Ok(s) ==> (has_plain_year(now.seconds()) ==> (rfc3339_value(
            s.received_at@,
        ) matches Some(q) && q.0 == now.seconds() && q.1 == now.nanoseconds() / 1_000_000
            * 1_000_000)),
        r matches Ok(s) ==> (at matches Some(t) && s.occurred_at@ == rfc3339_text(
            t.seconds(),
            t.nanoseconds(),
        ) && s.date@ == date_text(date_of(day_of(t.seconds()))) && (has_plain_year(t.seconds())
            ==> (rfc3339_value(s.occurred_at@) matches Some(q) && q.0 == t.seconds() && q.1
            == t.nanoseconds() / 1_000_000 * 1_000_000))),
        r matches Ok(s) ==> s.properties@ == properties@ && s.context@ == context@,
        r matches Ok(s) ==> is_sent(s.user_id@, ev@.user_id) && is_sent(
            s.anonymous_id@,
            ev@.anonymous_id,
        ) && is_sent(s.session_id@, ev@.session_id),
{
}

/// An event that was accepted has the instant that its own text stands for, or
/// that of its receipt where it has none, and the instant of its receipt beside
/// it, whatever it says itself.
pub proof fn law_normalized_events_have_both_times(
    ev: IncomingEvent,
    now: &Instant,
    denylist: &[String],
    r: Result<StoredEvent, String>,
)
    requires
        call_ensures(normalize, (ev, now, denylist), r),
    ensures
        r matches Ok(s) ==> s.received_at@ == rfc3339_text(now.seconds(), now.nanoseconds()),
        r matches Ok(s) ==> (has_plain_year(now.seconds()) ==> (rfc3339_value(
            s.received_at@,
        ) matches Some(q) && q.0 == now.seconds() && q.1 == now.nanoseconds() / 1_000_000
            * 1_000_000)),
        r matches Ok(s) ==> match ev@.occurred_at {
            Some(t) => rfc3339_value(t) matches Some(v) && s.occurred_at@ == rfc3339_text(
                v.0 as int,
                v.1 as int,
            ),
            None => s.occurred_at@ == s.received_at@,
        },
{
}

/// Keys stay unless they are denied, and dropping those that are changes no
/// other entry.
pub proof fn law_objects_lose_denied_keys_only(
    key: &str,
    denylist: &[String],
    stays: bool,
    m: serde_json::Map<String, serde_json::Value>,
    r: serde_json::Map<String, serde_json::Value>,
)
    requires
        call_ensures(keeps, (key, denylist), stays),
        call_ensures(sanitize, (m, denylist), r),
    ensures
        stays <==> !texts(denylist@).contains(lowercase(key@)),
        entries(r).dom().contains(key@) <==> stays && entries(m).dom().contains(key@),
        entries(r).dom().contains(key@) ==> entries(r)[key@] == entries(m)[key@],
{
    law_keys_are_denied_by_their_lower_case(entries(m), texts(denylist@), key@);
}

} // verus!
