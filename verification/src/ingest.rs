//! Taking events in: whose key it is, what it allows, and what becomes of each
//! event of a batch.
use vstd::prelude::*;

use crate::auth::{bearer, bearer_key, header_bytes, key_matches, Refusal};
use crate::config::{key_pairs, Config, ProductKey};
use crate::event::{all_product_chars, is_product_char, normalize, normalized};
use crate::event::{is_sent, law_line_reads_back, Incoming, IncomingEvent};
use crate::json::{paired, read_object};
use crate::query::column_names;
use crate::text::{copy_text, opt_text, text_or_empty, texts, trim_back, trim_front, trimmed};
use crate::time::{date_of, date_text, day_of, rfc3339_text, rfc3339_value, Instant};

verus! {

/// The most events that a batch may hold.
pub const MAX_BATCH: usize = 500;

/// The body of a request: a list of events, by itself or as the only member of
/// an object.
pub enum Batch {
    Wrapped { events: Vec<IncomingEvent> },
    Bare(Vec<IncomingEvent>),
}

impl Batch {
    /// The events of the batch.
    pub open spec fn events(self) -> Seq<IncomingEvent> {
        match self {
            Batch::Wrapped { events } => events@,
            Batch::Bare(events) => events@,
        }
    }

    /// The events of the batch.
    pub fn into_events(self) -> (r: Vec<IncomingEvent>)
        ensures
            r@ == self.events(),
    {
        match self {
            Batch::Wrapped { events } => events,
            Batch::Bare(events) => events,
        }
    }
}

/// The query of a request.
pub struct IngestQuery {
    /// The key, for senders that cannot set headers.
    pub key: Option<String>,
}

/// What a key allows: to write events of one product. Where it is trusted,
/// they may say that they come from a server.
pub struct Grant {
    pub product: String,
    pub trusted: bool,
}

/// The key that a request provides: that of its header, or else that of its
/// query.
pub open spec fn provided_key(
    authorization: Option<Seq<u8>>,
    query_key: Option<Seq<char>>,
) -> Seq<char> {
    if bearer_key(authorization).len() > 0 {
        bearer_key(authorization)
    } else {
        text_or_empty(query_key)
    }
}

/// The product of the first key that is the given one.
pub open spec fn product_of(
    keys: Seq<(Seq<char>, Seq<char>)>,
    key: Seq<char>,
) -> Option<Seq<char>>
    decreases keys.len(),
{
    if keys.len() == 0 {
        None
    } else if keys[0].1 == key {
        Some(keys[0].0)
    } else {
        product_of(keys.drop_first(), key)
    }
}

/// What a key allows: nothing where it is empty, the operator's or unknown;
/// else to write events of its product, and to be trusted if it is a server's.
pub open spec fn granted(config: Config, key: Seq<char>) -> Option<(Seq<char>, bool)> {
    if key.len() == 0 || key == config.admin_key@ {
        None
    } else {
        match product_of(key_pairs(config.server_keys@), key) {
            Some(product) => Some((product, true)),
            None => match product_of(key_pairs(config.client_keys@), key) {
                Some(product) => Some((product, false)),
                None => None,
            },
        }
    }
}

fn find_product(keys: &[ProductKey], key: &str) -> (r: Option<String>)
    ensures
        opt_text(r) == product_of(key_pairs(keys@), key@),
{
    let ghost pairs = key_pairs(keys@);
    let mut i: usize = 0;
    proof {
        assert(pairs.skip(0) =~= pairs);
    }
    while i < keys.len()
        invariant
            i <= keys.len(),
            pairs == key_pairs(keys@),
            product_of(pairs, key@) == product_of(pairs.skip(i as int), key@),
        decreases keys.len() - i,
    {
        if key_matches(key, keys[i].key.as_str()) {
            return Some(copy_text(keys[i].product.as_str()));
        }
        proof {
            assert(pairs.skip(i as int).drop_first() =~= pairs.skip(i + 1));
        }
        i += 1;
    }
    None
}

/// What a request may write, by the key that it provides.
pub fn authenticate(
    config: &Config,
    authorization: Option<&[u8]>,
    query_key: Option<String>,
) -> (r: Result<Grant, Refusal>)
    ensures
        ({
            let key = provided_key(header_bytes(authorization), opt_text(query_key));
            match r {
                Ok(g) => granted(*config, key) == Some((g.product@, g.trusted)),
                Err(e) => e == Refusal::Unauthorized && granted(*config, key) is None,
            }
        }),
{
    let header_key = bearer(authorization);
    let key = if !header_key.as_str().is_empty() {
        header_key
    } else {
        match query_key {
            Some(k) => k,
            None => String::new(),
        }
    };
    if key.as_str().is_empty() || key_matches(key.as_str(), config.admin_key.as_str()) {
        return Err(Refusal::Unauthorized);
    }
    match find_product(config.server_keys.as_slice(), key.as_str()) {
        Some(product) => Ok(Grant { product, trusted: true }),
        None => match find_product(config.client_keys.as_slice(), key.as_str()) {
            Some(product) => Ok(Grant { product, trusted: false }),
            None => Err(Refusal::Unauthorized),
        },
    }
}

/// An event as its key lets it be: its product is that of the key, and unless
/// the key is trusted, it comes from a client.
pub open spec fn pinned(ev: Incoming, product: Seq<char>, trusted: bool) -> Incoming {
    Incoming {
        product: Some(product),
        source: if trusted {
            ev.source
        } else {
            Some("client"@)
        },
        ..ev
    }
}

/// Makes an event what its key lets it be, whatever it says itself.
pub fn pin(ev: IncomingEvent, grant: &Grant) -> (r: IncomingEvent)
    ensures
        r@ == pinned(ev@, grant.product@, grant.trusted),
{
    let mut ev = ev;
    ev.product = Some(copy_text(grant.product.as_str()));
    if !grant.trusted {
        ev.source = Some(copy_text("client"));
    }
    ev
}

/// An answer that is no success.
pub struct Failure {
    /// The HTTP status.
    pub status: u16,
    pub message: String,
}

/// What is wrong with the size of a batch: the status and the message.
pub open spec fn size_fault(n: nat) -> Option<(u16, Seq<char>)> {
    if n == 0 {
        Some((400, "empty batch"@))
    } else if n > MAX_BATCH {
        Some((413, "batch too large: max 500 events"@))
    } else {
        None
    }
}

/// What is wrong with the size of a batch, if anything is.
pub fn check_size(n: usize) -> (r: Option<Failure>)
    ensures
        match r {
            Some(f) => size_fault(n as nat) == Some((f.status, f.message@)),
            None => size_fault(n as nat) is None,
        },
{
    if n == 0 {
        Some(Failure { status: 400, message: copy_text("empty batch") })
    } else if n > MAX_BATCH {
        Some(Failure { status: 413, message: copy_text("batch too large: max 500 events") })
    } else {
        None
    }
}

/// An event of a batch that is not taken in.
pub struct Rejection {
    /// Its position in the batch.
    pub index: usize,
    pub reason: String,
}

/// What a batch comes to: the lines that go to the log, and the events that
/// are not taken in.
pub struct Outcome {
    pub lines: Vec<String>,
    pub rejected: Vec<Rejection>,
}

/// The lines among results.
pub open spec fn lines_of(results: Seq<Result<Seq<char>, Seq<char>>>) -> Seq<Seq<char>>
    decreases results.len(),
{
    if results.len() == 0 {
        Seq::empty()
    } else {
        let before = lines_of(results.drop_last());
        match results.last() {
            Ok(line) => before.push(line),
            Err(_) => before,
        }
    }
}

/// The positions and the reasons of the rejections among results.
pub open spec fn rejections_of(results: Seq<Result<Seq<char>, Seq<char>>>) -> Seq<(int, Seq<char>)>
    decreases results.len(),
{
    if results.len() == 0 {
        Seq::empty()
    } else {
        let before = rejections_of(results.drop_last());
        match results.last() {
            Ok(_) => before,
            Err(reason) => before.push((results.len() - 1, reason)),
        }
    }
}

/// The positions and the reasons of rejections.
pub open spec fn rejection_pairs(v: Seq<Rejection>) -> Seq<(int, Seq<char>)> {
    Seq::new(v.len(), |i: int| (v[i].index as int, v[i].reason@))
}

/// The texts of a result.
pub open spec fn result_text(r: Result<String, String>) -> Result<Seq<char>, Seq<char>> {
    match r {
        Ok(line) => Ok(line@),
        Err(reason) => Err(reason@),
    }
}

/// The texts of results.
pub open spec fn result_texts(v: Seq<Result<String, String>>) -> Seq<Result<Seq<char>, Seq<char>>> {
    Seq::new(v.len(), |i: int| result_text(v[i]))
}

/// Every result is a line or a rejection.
pub proof fn law_every_event_is_answered(results: Seq<Result<Seq<char>, Seq<char>>>)
    ensures
        lines_of(results).len() + rejections_of(results).len() == results.len(),
    decreases results.len(),
{
    if results.len() > 0 {
        law_every_event_is_answered(results.drop_last());
    }
}

/// The rejections are those of the events that gave no line, each once and in
/// the order of the batch.
pub proof fn law_rejections_are_the_faulty_events(
    results: Seq<Result<Seq<char>, Seq<char>>>,
    i: int,
    reason: Seq<char>,
)
    ensures
        rejections_of(results).contains((i, reason)) <==> (0 <= i < results.len() && results[i]
            == Err::<Seq<char>, Seq<char>>(reason)),
        forall|a: int, b: int|
            0 <= a < b < rejections_of(results).len() ==> (#[trigger] rejections_of(results)[a]).0
                < (#[trigger] rejections_of(results)[b]).0,
    decreases results.len(),
{
    if results.len() > 0 {
        let front = results.drop_last();
        let before = rejections_of(front);
        let all = rejections_of(results);
        law_rejections_are_the_faulty_events(front, i, reason);
        assert forall|a: int| 0 <= a < before.len() implies (#[trigger] before[a]).0
            < front.len() by {
            law_rejections_are_the_faulty_events(front, before[a].0, before[a].1);
            assert(before.contains(before[a]));
        }
        if results.last() is Err {
            assert(all == before.push((results.len() - 1, results.last()->Err_0)));
            assert(all.last() == all[all.len() - 1]);
            if all.contains((i, reason)) {
                let at = all.index_of((i, reason));
                if at < before.len() {
                    assert(before[at] == (i, reason));
                    assert(before.contains((i, reason)));
                }
            }
            if before.contains((i, reason)) {
                let at = before.index_of((i, reason));
                assert(all[at] == (i, reason));
            }
            if i == results.len() - 1 && results[i] == Err::<Seq<char>, Seq<char>>(reason) {
                assert(all[all.len() - 1] == (i, reason));
            }
        }
    }
}

/// Sorts the results for a batch, each the line of an event or the reason why
/// it is not taken in.
pub fn sort_results(results: Vec<Result<String, String>>) -> (r: Outcome)
    ensures
        texts(r.lines@) == lines_of(result_texts(results@)),
        rejection_pairs(r.rejected@) == rejections_of(result_texts(results@)),
        r.lines@.len() + r.rejected@.len() == results@.len(),
{
    let ghost all = result_texts(results@);
    let mut lines: Vec<String> = Vec::new();
    let mut rejected: Vec<Rejection> = Vec::new();
    let mut i: usize = 0;
    proof {
        assert(all.take(0) =~= Seq::<Result<Seq<char>, Seq<char>>>::empty());
        assert(texts(lines@) =~= Seq::<Seq<char>>::empty());
        assert(rejection_pairs(rejected@) =~= Seq::<(int, Seq<char>)>::empty());
    }
    while i < results.len()
        invariant
            i <= results.len(),
            all == result_texts(results@),
            texts(lines@) == lines_of(all.take(i as int)),
            rejection_pairs(rejected@) == rejections_of(all.take(i as int)),
        decreases results.len() - i,
    {
        proof {
            assert(all.take(i + 1).drop_last() =~= all.take(i as int));
            assert(all.take(i + 1).last() == result_text(results@[i as int]));
        }
        match &results[i] {
            Ok(line) => {
                let ghost before = lines@;
                lines.push(copy_text(line.as_str()));
                proof {
                    assert(texts(lines@) =~= texts(before).push(line@));
                }
            },
            Err(reason) => {
                let ghost before = rejected@;
                rejected.push(Rejection { index: i, reason: copy_text(reason.as_str()) });
                proof {
                    assert(rejection_pairs(rejected@) =~= rejection_pairs(before).push(
                        (i as int, reason@),
                    ));
                }
            },
        }
        i += 1;
    }
    proof {
        assert(all.take(i as int) =~= all);
        law_every_event_is_answered(all);
        assert(texts(lines@).len() == lines@.len());
        assert(rejection_pairs(rejected@).len() == rejected@.len());
    }
    Outcome { lines, rejected }
}

/// The line of an event that was sent with a key, or why it is not taken in.
pub open spec fn event_result(
    ev: Incoming,
    product: Seq<char>,
    trusted: bool,
    now: Instant,
    denylist: Seq<Seq<char>>,
) -> Result<Seq<char>, Seq<char>> {
    match normalized(pinned(ev, product, trusted), now, denylist) {
        Ok(stored) => Ok(stored.line()),
        Err(reason) => Err(reason),
    }
}

/// The results for the events of a batch.
pub open spec fn batch_results(
    events: Seq<IncomingEvent>,
    product: Seq<char>,
    trusted: bool,
    now: Instant,
    denylist: Seq<Seq<char>>,
) -> Seq<Result<Seq<char>, Seq<char>>> {
    Seq::new(
        events.len(),
        |i: int| event_result(events[i]@, product, trusted, now, denylist),
    )
}

/// What a batch comes to, given what its key allows: the status and the message
/// where it is too small or too large as a whole.
pub fn take_in(
    config: &Config,
    grant: &Grant,
    batch: Batch,
    now: &Instant,
) -> (r: Result<Outcome, Failure>)
    ensures
        match r {
            Ok(o) => {
                let results = batch_results(
                    batch.events(),
                    grant.product@,
                    grant.trusted,
                    *now,
                    texts(config.property_denylist@),
                );
                &&& size_fault(batch.events().len()) is None
                &&& texts(o.lines@) == lines_of(results)
                &&& rejection_pairs(o.rejected@) == rejections_of(results)
                &&& o.lines@.len() + o.rejected@.len() == batch.events().len()
            },
            Err(f) => size_fault(batch.events().len()) == Some((f.status, f.message@)),
        },
{
    let events = batch.into_events();
    match check_size(events.len()) {
        Some(f) => {
            return Err(f);
        },
        None => {},
    }
    let ghost sent = events@;
    let ghost want = batch_results(
        sent,
        grant.product@,
        grant.trusted,
        *now,
        texts(config.property_denylist@),
    );
    let mut results: Vec<Result<String, String>> = Vec::new();
    for ev in it: events
        invariant
            it.seq() == sent,
            want == batch_results(
                sent,
                grant.product@,
                grant.trusted,
                *now,
                texts(config.property_denylist@),
            ),
            results@.len() == it.index(),
            forall|j: int|
                0 <= j < results@.len() ==> result_text(#[trigger] results@[j]) == want[j],
    {
        let result: Result<String, String> = match normalize(
            pin(ev, grant),
            now,
            config.property_denylist.as_slice(),
        ) {
            Ok(stored) => Ok(stored.to_line()),
            Err(reason) => Err(reason),
        };
        results.push(result);
    }
    proof {
        assert(result_texts(results@) =~= want);
    }
    Ok(sort_results(results))
}

/// What a request to write events comes to, before anything is written.
pub fn ingest(
    config: &Config,
    authorization: Option<&[u8]>,
    query: IngestQuery,
    batch: Batch,
    now: &Instant,
) -> (r: Result<Outcome, Failure>)
    ensures
        ({
            let key = provided_key(header_bytes(authorization), opt_text(query.key));
            match granted(*config, key) {
                None => r matches Err(f) && f.status == 401 && f.message@
                    == "invalid or missing API key"@,
                Some((product, trusted)) => match r {
                    Ok(o) => {
                        let results = batch_results(
                            batch.events(),
                            product,
                            trusted,
                            *now,
                            texts(config.property_denylist@),
                        );
                        &&& size_fault(batch.events().len()) is None
                        &&& texts(o.lines@) == lines_of(results)
                        &&& rejection_pairs(o.rejected@) == rejections_of(results)
                        &&& o.lines@.len() + o.rejected@.len() == batch.events().len()
                    },
                    Err(f) => size_fault(batch.events().len()) == Some((f.status, f.message@)),
                },
            }
        }),
{
    match authenticate(config, authorization, query.key) {
        Err(e) => Err(
            Failure { status: e.status(), message: copy_text("invalid or missing API key") },
        ),
        Ok(grant) => take_in(config, &grant, batch, now),
    }
}

/// The answer to a batch.
pub enum Reply {
    /// Status 202: so many events were taken in, and these were not.
    Accepted { accepted: usize, rejected: Vec<Rejection> },
    Failed(Failure),
}

/// The answer to a batch, once its lines were given to the log. `written` says
/// whether the log has them safely on disk; where there are no lines, nothing
/// has to be written.
pub fn reply(outcome: Outcome, written: bool) -> (r: Reply)
    ensures
        if written || outcome.lines@.len() == 0 {
            r matches Reply::Accepted { accepted, rejected } && accepted == outcome.lines@.len()
                && rejected == outcome.rejected
        } else {
            r matches Reply::Failed(f) && f.status == 500 && f.message@ == "internal error"@
        },
{
    let accepted: usize = outcome.lines.len();
    if written || accepted == 0 {
        Reply::Accepted { accepted, rejected: outcome.rejected }
    } else {
        Reply::Failed(Failure { status: 500, message: copy_text("internal error") })
    }
}

/// The operator's key cannot write events, even where a product has the same
/// key; nor can a request without one.
pub proof fn law_operator_cannot_write(config: Config)
    ensures
        granted(config, config.admin_key@) is None,
        granted(config, Seq::empty()) is None,
{
}

proof fn lemma_product_of(keys: Seq<(Seq<char>, Seq<char>)>, key: Seq<char>)
    ensures
        product_of(keys, key) matches Some(p) ==> keys.contains((p, key)),
        product_of(keys, key) is None ==> forall|i: int|
            0 <= i < keys.len() ==> (#[trigger] keys[i]).1 != key,
    decreases keys.len(),
{
    if keys.len() > 0 {
        if keys[0].1 == key {
            assert(keys[0] == (keys[0].0, key));
        } else {
            let rest = keys.drop_first();
            lemma_product_of(rest, key);
            match product_of(rest, key) {
                Some(p) => {
                    let at = rest.index_of((p, key));
                    assert(keys[at + 1] == rest[at]);
                },
                None => {
                    assert forall|i: int| 0 <= i < keys.len() implies (#[trigger] keys[i]).1
                        != key by {
                        if i > 0 {
                            assert(keys[i] == rest[i - 1]);
                        }
                    }
                },
            }
        }
    }
}

/// What a key allows is what the configuration says of it: the product is one
/// that has the key, and a key is trusted only if it is a server's.
pub proof fn law_grants_are_configured(config: Config, key: Seq<char>)
    requires
        granted(config, key) is Some,
    ensures
        ({
            let (product, trusted) = granted(config, key)->0;
            if trusted {
                key_pairs(config.server_keys@).contains((product, key))
            } else {
                key_pairs(config.client_keys@).contains((product, key))
            }
        }),
{
    lemma_product_of(key_pairs(config.server_keys@), key);
    lemma_product_of(key_pairs(config.client_keys@), key);
}

/// Every configured key but the operator's lets its holder write.
pub proof fn law_configured_keys_are_granted(config: Config, i: int)
    requires
        0 <= i < config.server_keys@.len() + config.client_keys@.len(),
    ensures
        ({
            let n = config.server_keys@.len();
            let k = if i < n {
                config.server_keys@[i]
            } else {
                config.client_keys@[i - n]
            };
            k.key@.len() > 0 && k.key@ != config.admin_key@ ==> granted(config, k.key@) is Some
        }),
{
    let n = config.server_keys@.len();
    let servers = key_pairs(config.server_keys@);
    let clients = key_pairs(config.client_keys@);
    let k = if i < n {
        config.server_keys@[i]
    } else {
        config.client_keys@[i - n]
    };
    lemma_product_of(servers, k.key@);
    lemma_product_of(clients, k.key@);
    if i < n {
        assert(servers[i].1 == k.key@);
    } else {
        assert(clients[i - n].1 == k.key@);
    }
}

/// The product of a stored event is that of the key it was sent with, whatever
/// the event says.
pub proof fn law_product_is_that_of_the_key(
    ev: Incoming,
    product: Seq<char>,
    trusted: bool,
    now: Instant,
    denylist: Seq<Seq<char>>,
)
    requires
        all_product_chars(product),
        normalized(pinned(ev, product, trusted), now, denylist) is Ok,
    ensures
        normalized(pinned(ev, product, trusted), now, denylist)->Ok_0.product == product,
{
    if product.len() > 0 {
        assert(is_product_char(product[0]));
        assert(is_product_char(product[product.len() - 1]));
        assert(trim_front(product) == product);
        assert(trim_back(product) == product);
    } else {
        assert(trimmed(product) == product);
    }
}

/// An event from a server was sent with a server's key: with any other key the
/// stored source is the client.
pub proof fn law_only_server_keys_write_as_server(
    config: Config,
    key: Seq<char>,
    ev: Incoming,
    now: Instant,
    denylist: Seq<Seq<char>>,
)
    requires
        granted(config, key) is Some,
        ({
            let (product, trusted) = granted(config, key)->0;
            normalized(pinned(ev, product, trusted), now, denylist) is Ok
        }),
    ensures
        ({
            let (product, trusted) = granted(config, key)->0;
            let stored = normalized(pinned(ev, product, trusted), now, denylist)->Ok_0;
            &&& stored.source == "server"@ || stored.source == "client"@
            &&& stored.source == "server"@ ==> key_pairs(config.server_keys@).contains(
                (product, key),
            )
        }),
{
    law_grants_are_configured(config, key);
    reveal_strlit("server");
    reveal_strlit("client");
    assert("server"@[0] != "client"@[0]);
}

/// The key of the header is the one that counts; that of the query counts
/// where the header has none.
pub proof fn law_the_header_goes_before_the_query(
    authorization: Option<Seq<u8>>,
    query_key: Option<Seq<char>>,
)
    ensures
        bearer_key(authorization).len() > 0 ==> provided_key(authorization, query_key)
            == bearer_key(authorization),
        bearer_key(authorization).len() == 0 ==> match query_key {
            Some(k) => provided_key(authorization, query_key) == k,
            None => provided_key(authorization, query_key).len() == 0,
        },
{
}

/// A server's key lets its holder write events of its product and be trusted;
/// a client's key that is no server's lets its holder write events of its
/// product and not be trusted. Where products share a key, the first has it.
pub proof fn law_keys_grant_their_product(config: Config, i: int)
    ensures
        ({
            let servers = config.server_keys@;
            0 <= i < servers.len() && servers[i].key@.len() > 0 && servers[i].key@
                != config.admin_key@ && (forall|j: int|
                0 <= j < i ==> (#[trigger] servers[j]).key@ != servers[i].key@) ==> granted(
                config,
                servers[i].key@,
            ) == Some((servers[i].product@, true))
        }),
        ({
            let servers = config.server_keys@;
            let clients = config.client_keys@;
            0 <= i < clients.len() && clients[i].key@.len() > 0 && clients[i].key@
                != config.admin_key@ && (forall|j: int|
                0 <= j < servers.len() ==> (#[trigger] servers[j]).key@ != clients[i].key@) && (
            forall|j: int| 0 <= j < i ==> (#[trigger] clients[j]).key@ != clients[i].key@)
                ==> granted(config, clients[i].key@) == Some((clients[i].product@, false))
        }),
{
    let servers = config.server_keys@;
    let clients = config.client_keys@;
    if 0 <= i < servers.len() && forall|j: int|
        0 <= j < i ==> (#[trigger] servers[j]).key@ != servers[i].key@ {
        let pairs = key_pairs(servers);
        assert forall|j: int| 0 <= j < i implies (#[trigger] pairs[j]).1 != pairs[i].1 by {
            assert(pairs[j].1 == servers[j].key@);
        }
        lemma_first_key(pairs, i);
    }
    if 0 <= i < clients.len() && (forall|j: int|
        0 <= j < i ==> (#[trigger] clients[j]).key@ != clients[i].key@) && (forall|j: int|
        0 <= j < servers.len() ==> (#[trigger] servers[j]).key@ != clients[i].key@) {
        let pairs = key_pairs(clients);
        assert forall|j: int| 0 <= j < i implies (#[trigger] pairs[j]).1 != pairs[i].1 by {
            assert(pairs[j].1 == clients[j].key@);
        }
        lemma_first_key(pairs, i);
        lemma_product_of(key_pairs(servers), clients[i].key@);
        if product_of(key_pairs(servers), clients[i].key@) is Some {
            let p = product_of(key_pairs(servers), clients[i].key@)->0;
            let at = key_pairs(servers).index_of((p, clients[i].key@));
            assert(servers[at].key@ == clients[i].key@);
        }
    }
}

proof fn lemma_first_key(keys: Seq<(Seq<char>, Seq<char>)>, i: int)
    requires
        0 <= i < keys.len(),
        forall|j: int| 0 <= j < i ==> (#[trigger] keys[j]).1 != keys[i].1,
    ensures
        product_of(keys, keys[i].1) == Some(keys[i].0),
    decreases i,
{
    if i > 0 {
        let rest = keys.drop_first();
        assert(keys[0].1 != keys[i].1);
        assert forall|j: int| 0 <= j < i - 1 implies (#[trigger] rest[j]).1 != rest[i - 1].1 by {
            assert(rest[j] == keys[j + 1]);
        }
        lemma_first_key(rest, i - 1);
    }
}

/// A key that no product has lets nobody write.
pub proof fn law_unknown_keys_grant_nothing(config: Config, key: Seq<char>)
    requires
        forall|i: int|
            0 <= i < config.server_keys@.len() ==> (#[trigger] config.server_keys@[i]).key@ != key,
        forall|i: int|
            0 <= i < config.client_keys@.len() ==> (#[trigger] config.client_keys@[i]).key@ != key,
    ensures
        granted(config, key) is None,
{
    let servers = key_pairs(config.server_keys@);
    let clients = key_pairs(config.client_keys@);
    lemma_product_of(servers, key);
    lemma_product_of(clients, key);
    if product_of(servers, key) is Some {
        let at = servers.index_of((product_of(servers, key)->0, key));
        assert(config.server_keys@[at].key@ == key);
    }
    if product_of(clients, key) is Some {
        let at = clients.index_of((product_of(clients, key)->0, key));
        assert(config.client_keys@[at].key@ == key);
    }
}

/// A key decides on the product and, where it is not trusted, on the source.
/// Everything else of an event is the sender's.
pub proof fn law_keys_change_product_and_source_only(
    ev: Incoming,
    product: Seq<char>,
    trusted: bool,
)
    ensures
        pinned(ev, product, trusted).product == Some(product),
        pinned(ev, product, true).source == ev.source,
        pinned(ev, product, false).source == Some("client"@),
        pinned(ev, product, trusted).event == ev.event,
        pinned(ev, product, trusted).occurred_at == ev.occurred_at,
        pinned(ev, product, trusted).anonymous_id == ev.anonymous_id,
        pinned(ev, product, trusted).user_id == ev.user_id,
        pinned(ev, product, trusted).session_id == ev.session_id,
        pinned(ev, product, trusted).properties == ev.properties,
        pinned(ev, product, trusted).context == ev.context,
{
}

/// An event that says when it occurred is stored with that instant and its
/// day, whatever the key; and with the time of receipt beside it.
pub proof fn law_ingested_events_keep_their_time(
    ev: Incoming,
    product: Seq<char>,
    trusted: bool,
    now: Instant,
    denylist: Seq<Seq<char>>,
)
    requires
        normalized(pinned(ev, product, trusted), now, denylist) is Ok,
    ensures
        ({
            let stored = normalized(pinned(ev, product, trusted), now, denylist)->Ok_0;
            &&& match ev.occurred_at {
                Some(s) => rfc3339_value(s) matches Some(v) && stored.occurred_at == rfc3339_text(
                    v.0 as int,
                    v.1 as int,
                ) && stored.date == date_text(date_of(day_of(v.0 as int))),
                None => stored.occurred_at == rfc3339_text(now.seconds(), now.nanoseconds()),
            }
            &&& stored.received_at == rfc3339_text(now.seconds(), now.nanoseconds())
            &&& is_sent(stored.user_id, ev.user_id)
            &&& is_sent(stored.anonymous_id, ev.anonymous_id)
            &&& is_sent(stored.session_id, ev.session_id)
            &&& ev.event matches Some(e) && stored.event == trimmed(e)
        }),
{
    let none = Seq::<char>::empty();
    assert(trimmed(none) == none);
}

/// A batch has one result for each event, in order: the line of what is stored
/// of it, or why it is rejected.
pub proof fn law_batches_are_taken_event_by_event(
    events: Seq<IncomingEvent>,
    product: Seq<char>,
    trusted: bool,
    now: Instant,
    denylist: Seq<Seq<char>>,
    i: int,
)
    requires
        0 <= i < events.len(),
    ensures
        ({
            let results = batch_results(events, product, trusted, now, denylist);
            let sent = normalized(pinned(events[i]@, product, trusted), now, denylist);
            &&& results.len() == events.len()
            &&& match sent {
                Ok(stored) => results[i] matches Ok(line) && read_object(line, 11) == Some(
                    paired(column_names(), stored.columns()),
                ),
                Err(reason) => results[i] == Err::<Seq<char>, Seq<char>>(reason),
            }
        }),
{
    let sent = normalized(pinned(events[i]@, product, trusted), now, denylist);
    if sent is Ok {
        law_line_reads_back(sent->Ok_0);
    }
}

/// The lines for the log are those of the accepted events, all of them and in
/// order.
pub proof fn law_lines_are_those_of_accepted_events(
    a: Seq<Result<Seq<char>, Seq<char>>>,
    b: Seq<Result<Seq<char>, Seq<char>>>,
    line: Seq<char>,
    reason: Seq<char>,
)
    ensures
        lines_of(a + b) == lines_of(a) + lines_of(b),
        lines_of(seq![Ok::<Seq<char>, Seq<char>>(line)]) == seq![line],
        lines_of(seq![Err::<Seq<char>, Seq<char>>(reason)]).len() == 0,
    decreases b.len(),
{
    reveal_with_fuel(lines_of, 2);
    let one = seq![Ok::<Seq<char>, Seq<char>>(line)];
    let none = seq![Err::<Seq<char>, Seq<char>>(reason)];
    assert(one.drop_last() =~= Seq::empty());
    assert(none.drop_last() =~= Seq::empty());
    assert(lines_of(one) =~= seq![line]);
    if b.len() == 0 {
        assert(a + b =~= a);
        assert(lines_of(a) + lines_of(b) =~= lines_of(a));
    } else {
        law_lines_are_those_of_accepted_events(a, b.drop_last(), line, reason);
        assert((a + b).drop_last() =~= a + b.drop_last());
        assert((a + b).last() == b.last());
        assert(lines_of(a + b) =~= lines_of(a) + lines_of(b));
    }
}

/// Batches of one to 500 events are taken, no others.
pub proof fn law_batches_have_one_to_500_events(n: nat)
    ensures
        size_fault(n) is None <==> 1 <= n <= 500,
        n == 0 ==> size_fault(n) == Some((400u16, "empty batch"@)),
        n > 500 ==> size_fault(n) == Some((413u16, "batch too large: max 500 events"@)),
{
}

/// The events of a batch are those it holds, in either form, and results and
/// rejections are seen as they are.
pub proof fn law_batches_hold_their_events(
    events: Vec<IncomingEvent>,
    results: Seq<Result<String, String>>,
    rejected: Seq<Rejection>,
    i: int,
)
    ensures
        (Batch::Wrapped { events }).events() == events@,
        Batch::Bare(events).events() == events@,
        result_texts(results).len() == results.len(),
        0 <= i < results.len() ==> match results[i] {
            Ok(line) => result_texts(results)[i] == Ok::<Seq<char>, Seq<char>>(line@),
            Err(reason) => result_texts(results)[i] == Err::<Seq<char>, Seq<char>>(reason@),
        },
        rejection_pairs(rejected).len() == rejected.len(),
        0 <= i < rejected.len() ==> rejection_pairs(rejected)[i] == (
            rejected[i].index as int,
            rejected[i].reason@,
        ),
{
}

/// Pinning an event gives it the product of its key and, unless the key is
/// trusted, the source `client`; everything else of it stays as it was sent.
pub proof fn law_pinning_changes_product_and_source_only(
    ev: IncomingEvent,
    grant: &Grant,
    r: IncomingEvent,
)
    requires
        call_ensures(pin, (ev, grant), r),
    ensures
        r@.product == Some(grant.product@),
        grant.trusted ==> r@.source == ev@.source,
        !grant.trusted ==> r@.source == Some("client"@),
        r@.event == ev@.event,
        r@.occurred_at == ev@.occurred_at,
        r@.anonymous_id == ev@.anonymous_id,
        r@.user_id == ev@.user_id,
        r@.session_id == ev@.session_id,
        r@.properties == ev@.properties,
        r@.context == ev@.context,
{
}

/// Batches of one to 500 events pass the check of their size.
pub proof fn law_sizes_are_checked(n: usize, r: Option<Failure>)
    requires
        call_ensures(check_size, (n,), r),
    ensures
        r is None <==> 1 <= n <= 500,
        n == 0 ==> (r matches Some(f) && f.status == 400 && f.message@ == "empty batch"@),
        n > 500 ==> (r matches Some(f) && f.status == 413 && f.message@
            == "batch too large: max 500 events"@),
{
}

/// A batch is answered with how many of its events were taken in and with those
/// that were not, if its lines are safely on disk or there are none; otherwise
/// it has failed.
pub proof fn law_batches_are_answered(outcome: Outcome, written: bool, r: Reply)
    requires
        call_ensures(reply, (outcome, written), r),
    ensures
        written || outcome.lines@.len() == 0 ==> (r matches Reply::Accepted { accepted, rejected }
            && accepted == outcome.lines@.len() && rejected == outcome.rejected),
        !written && outcome.lines@.len() > 0 ==> (r matches Reply::Failed(f) && f.status == 500
            && f.message@ == "internal error"@),
{
}

/// A request may write exactly if its key is that of a server or of a client,
/// and then events of the key's product, trusted if it is a server's.
pub proof fn law_requests_write_with_their_key(
    config: &Config,
    authorization: Option<&[u8]>,
    query_key: Option<String>,
    r: Result<Grant, Refusal>,
)
    requires
        call_ensures(authenticate, (config, authorization, query_key), r),
    ensures
        ({
            let key = provided_key(header_bytes(authorization), opt_text(query_key));
            &&& r matches Ok(g) ==> granted(*config, key) == Some((g.product@, g.trusted))
            &&& r matches Err(e) ==> granted(*config, key) is None && e == Refusal::Unauthorized
        }),
{
}

/// What a request to write comes to: refused without a key that grants
/// something, or for the size of its batch; else there is a line for each
/// accepted event, in order, and a rejection for each other, with its position
/// and the reason.
pub proof fn law_requests_come_to_lines_and_rejections(
    config: &Config,
    authorization: Option<&[u8]>,
    query: IngestQuery,
    batch: Batch,
    now: &Instant,
    r: Result<Outcome, Failure>,
    i: int,
)
    requires
        call_ensures(ingest, (config, authorization, query, batch, now), r),
    ensures
        ({
            let key = provided_key(header_bytes(authorization), opt_text(query.key));
            let n = batch.events().len();
            match granted(*config, key) {
                None => r matches Err(f) && f.status == 401,
                Some((product, trusted)) => {
                    &&& r is Ok <==> 1 <= n <= 500
                    &&& r matches Err(f) ==> (f.status == 400 && n == 0) || (f.status == 413 && n
                        > 500)
                    &&& r matches Ok(o) ==> o.lines@.len() + o.rejected@.len() == n && (0 <= i < n
                        ==> ({
                        let sent = normalized(
                            pinned(batch.events()[i]@, product, trusted),
                            *now,
                            texts(config.property_denylist@),
                        );
                        match sent {
                            Ok(stored) => texts(o.lines@).contains(stored.line()),
                            Err(reason) => rejection_pairs(o.rejected@).contains((i, reason)),
                        }
                    }))
                },
            }
        }),
{
    let key = provided_key(header_bytes(authorization), opt_text(query.key));
    if granted(*config, key) is Some && r is Ok && 0 <= i < batch.events().len() {
        let (product, trusted) = granted(*config, key)->0;
        let results = batch_results(
            batch.events(),
            product,
            trusted,
            *now,
            texts(config.property_denylist@),
        );
        match results[i] {
            Ok(line) => {
                lemma_line_is_there(results, i);
            },
            Err(reason) => {
                law_rejections_are_the_faulty_events(results, i, reason);
            },
        }
    }
}

proof fn lemma_line_is_there(results: Seq<Result<Seq<char>, Seq<char>>>, i: int)
    requires
        0 <= i < results.len(),
        results[i] is Ok,
    ensures
        lines_of(results).contains(results[i]->Ok_0),
    decreases results.len(),
{
    let front = results.drop_last();
    let all = lines_of(results);
    if i < front.len() {
        assert(front[i] == results[i]);
        lemma_line_is_there(front, i);
        let at = lines_of(front).index_of(results[i]->Ok_0);
        assert(all[at] == results[i]->Ok_0);
    } else {
        assert(all[all.len() - 1] == results[i]->Ok_0);
    }
}

} // verus!
