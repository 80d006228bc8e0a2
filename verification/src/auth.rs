//! Who may send requests: the origins of browsers and the operator's key.
use vstd::prelude::*;
use vstd::utf8::encode_utf8;

use crate::config::{list_entries, non_empty, Config};
use crate::text::{after_prefix, all_ascii, ascii_lowercase, has_prefix, texts};
use crate::text::law_prefix_comes_off;
use crate::text::{contains_text, copy_text, strip_prefix, to_lowercase};

verus! {

/// Why a request is refused.
#[derive(Debug, Clone, Copy, PartialEq, Eq, Structural)]
pub enum Refusal {
    /// The key is missing or wrong.
    Unauthorized,
    /// The origin is not allowed.
    Forbidden,
}

impl Refusal {
    /// The HTTP status of the answer.
    pub open spec fn code(self) -> u16 {
        match self {
            Refusal::Unauthorized => 401,
            Refusal::Forbidden => 403,
        }
    }

    /// The HTTP status of the answer.
    pub fn status(&self) -> (r: u16)
        ensures
            r == self.code(),
    {
        match self {
            Refusal::Unauthorized => 401,
            Refusal::Forbidden => 403,
        }
    }
}

/// subtle's `ConstantTimeEq::ct_eq` on slices of bytes: whether they are
/// equal. That its time does not depend on the bytes is not stated.
#[verifier::external_body]
fn ct_eq(a: &[u8], b: &[u8]) -> (r: bool)
    ensures
        r == (a@ == b@),
{
    bool::from(subtle::ConstantTimeEq::ct_eq(a, b))
}

/// Texts with the same bytes are equal.
proof fn lemma_same_bytes(a: Seq<char>, b: Seq<char>)
    requires
        encode_utf8(a) == encode_utf8(b),
    ensures
        a == b,
{
    vstd::utf8::encode_utf8_decode_utf8(a);
    vstd::utf8::encode_utf8_decode_utf8(b);
}

/// Whether a key that was provided is the expected one. Only whether the
/// lengths are equal shows in the time it takes.
pub fn key_matches(provided: &str, expected: &str) -> (r: bool)
    ensures
        r == (provided@ == expected@),
{
    let p = provided.as_bytes();
    let e = expected.as_bytes();
    proof {
        if p@ == e@ {
            lemma_same_bytes(provided@, expected@);
        }
    }
    p.len() == e.len() && ct_eq(p, e)
}

/// Whether a byte is a printable ASCII character or a tab.
pub open spec fn is_visible(b: u8) -> bool {
    32 <= b < 127 || b == 9
}

/// The text of a header's value, where all of its bytes are printable ASCII
/// characters or tabs.
pub open spec fn header_str(value: Seq<u8>) -> Option<Seq<char>> {
    if forall|i: int| 0 <= i < value.len() ==> is_visible(#[trigger] value[i]) {
        Some(Seq::new(value.len(), |i: int| value[i] as char))
    } else {
        None
    }
}

/// `HeaderValue::to_str` of the value with the given bytes: their text, where
/// each is a printable ASCII character or a tab. Bytes that no header's value
/// can have give no text either.
#[verifier::external_body]
fn header_text(value: &[u8]) -> (r: Option<String>)
    ensures
        crate::text::opt_text(r) == header_str(value@),
{
    let value = axum::http::HeaderValue::from_bytes(value).ok()?;
    Some(value.to_str().ok()?.to_string())
}

/// The text of an origin: empty where it is not printable, and in lower case.
pub open spec fn origin_text(origin: Seq<u8>) -> Seq<char> {
    match header_str(origin) {
        Some(t) => ascii_lowercase(t),
        None => Seq::empty(),
    }
}

/// Whether requests with the given origin are let in. Those without one are.
pub open spec fn origin_allowed(origin: Option<Seq<u8>>, allowed: Seq<Seq<char>>) -> bool {
    origin matches Some(o) ==> allowed.contains(origin_text(o))
}

/// The bytes of an optional header.
pub open spec fn header_bytes(value: Option<&[u8]>) -> Option<Seq<u8>> {
    match value {
        Some(v) => Some(v@),
        None => None,
    }
}

/// Refuses requests from an origin that is not allowed. `origin` is the value
/// of the request's `Origin` header, where it has one.
pub fn check_origin(config: &Config, origin: Option<&[u8]>) -> (r: Result<(), Refusal>)
    ensures
        match r {
            Ok(_) => origin_allowed(header_bytes(origin), texts(config.allowed_origins@)),
            Err(e) => e == Refusal::Forbidden && !origin_allowed(
                header_bytes(origin),
                texts(config.allowed_origins@),
            ),
        },
{
    match origin {
        None => Ok(()),
        Some(value) => {
            let text = match header_text(value) {
                Some(t) => t,
                None => String::new(),
            };
            proof {
                assert(all_ascii(text@));
                assert(ascii_lowercase(Seq::<char>::empty()) =~= Seq::<char>::empty());
            }
            let lower = to_lowercase(text.as_str());
            if contains_text(config.allowed_origins.as_slice(), lower.as_str()) {
                Ok(())
            } else {
                Err(Refusal::Forbidden)
            }
        },
    }
}

/// The key that an `Authorization` header carries; empty where it carries
/// none.
pub open spec fn bearer_key(authorization: Option<Seq<u8>>) -> Seq<char> {
    match authorization {
        None => Seq::empty(),
        Some(value) => match header_str(value) {
            None => Seq::empty(),
            Some(t) => match after_prefix(t, "Bearer "@) {
                None => Seq::empty(),
                Some(key) => key,
            },
        },
    }
}

/// The key that an `Authorization` header carries; empty where it carries
/// none.
pub fn bearer(authorization: Option<&[u8]>) -> (r: String)
    ensures
        r@ == bearer_key(header_bytes(authorization)),
{
    match authorization {
        None => String::new(),
        Some(value) => match header_text(value) {
            None => String::new(),
            Some(t) => match strip_prefix(t.as_str(), "Bearer ") {
                None => String::new(),
                Some(key) => key,
            },
        },
    }
}

/// Refuses requests without the operator's key. `authorization` is the value
/// of the request's `Authorization` header, where it has one.
pub fn require_admin(config: &Config, authorization: Option<&[u8]>) -> (r: Result<(), Refusal>)
    ensures
        match r {
            Ok(_) => bearer_key(header_bytes(authorization)) == config.admin_key@,
            Err(e) => e == Refusal::Unauthorized && bearer_key(header_bytes(authorization))
                != config.admin_key@,
        },
{
    if key_matches(bearer(authorization).as_str(), config.admin_key.as_str()) {
        Ok(())
    } else {
        Err(Refusal::Unauthorized)
    }
}

/// Refuses requests to the operator's endpoints: first those from an origin
/// that is not allowed, then those without the operator's key.
pub fn require_auth(
    config: &Config,
    origin: Option<&[u8]>,
    authorization: Option<&[u8]>,
) -> (r: Result<(), Refusal>)
    ensures
        ({
            let from_allowed = origin_allowed(
                header_bytes(origin),
                texts(config.allowed_origins@),
            );
            let has_key = bearer_key(header_bytes(authorization)) == config.admin_key@;
            match r {
                Ok(_) => from_allowed && has_key,
                Err(Refusal::Forbidden) => !from_allowed,
                Err(Refusal::Unauthorized) => from_allowed && !has_key,
            }
        }),
{
    match check_origin(config, origin) {
        Err(e) => Err(e),
        Ok(_) => require_admin(config, authorization),
    }
}

/// The parts of the server that a request can be for.
#[derive(Debug, Clone, Copy, PartialEq, Eq, Structural)]
pub enum Surface {
    /// Whether the server is up: open to all.
    Health,
    /// Writing events: its keys are looked at with the batch.
    Ingest,
    /// Queries and erasure.
    Admin,
}

/// Why a request is not let in to a part of the server; `None` where it is.
pub open spec fn refusal(
    surface: Surface,
    origin: Option<Seq<u8>>,
    authorization: Option<Seq<u8>>,
    config: Config,
) -> Option<Refusal> {
    if surface is Health {
        None
    } else if !origin_allowed(origin, texts(config.allowed_origins@)) {
        Some(Refusal::Forbidden)
    } else if surface is Admin && bearer_key(authorization) != config.admin_key@ {
        Some(Refusal::Unauthorized)
    } else {
        None
    }
}

/// Refuses requests that are not let in to a part of the server.
pub fn let_in(
    config: &Config,
    surface: Surface,
    origin: Option<&[u8]>,
    authorization: Option<&[u8]>,
) -> (r: Result<(), Refusal>)
    ensures
        ({
            let why = refusal(
                surface,
                header_bytes(origin),
                header_bytes(authorization),
                *config,
            );
            match r {
                Ok(_) => why is None,
                Err(e) => why == Some(e),
            }
        }),
{
    match surface {
        Surface::Health => Ok(()),
        Surface::Ingest => check_origin(config, origin),
        Surface::Admin => require_auth(config, origin, authorization),
    }
}

/// A key of a product opens neither queries nor erasure, unless it is the
/// operator's.
pub proof fn law_product_keys_do_not_open_the_admin_surface(
    config: Config,
    origin: Option<Seq<u8>>,
    authorization: Option<Seq<u8>>,
    i: int,
)
    requires
        0 <= i < config.server_keys@.len() + config.client_keys@.len(),
        ({
            let n = config.server_keys@.len();
            let key = if i < n {
                config.server_keys@[i].key@
            } else {
                config.client_keys@[i - n].key@
            };
            key != config.admin_key@ && bearer_key(authorization) == key
        }),
    ensures
        refusal(Surface::Admin, origin, authorization, config) is Some,
{
}

/// Whether a header's value can have the bytes: printable ones, tabs, and
/// those above ASCII.
pub open spec fn is_header_bytes(value: Seq<u8>) -> bool {
    forall|i: int|
        0 <= i < value.len() ==> (32 <= #[trigger] value[i] && value[i] != 127) || value[i] == 9
}

/// `HeaderValue::from_str`: whether the text's bytes can be a header's value.
#[verifier::external_body]
fn is_header_value(s: &str) -> (r: bool)
    ensures
        r == is_header_bytes(encode_utf8(s@)),
{
    axum::http::HeaderValue::from_str(s).is_ok()
}

/// The origins that can stand in a header.
pub open spec fn header_origins(allowed: Seq<Seq<char>>) -> Seq<Seq<char>> {
    allowed.filter(|o: Seq<char>| is_header_bytes(encode_utf8(o)))
}

/// The origins that browsers are told of: the allowed ones that can stand in a
/// header.
pub fn cors_origins(config: &Config) -> (r: Vec<String>)
    ensures
        texts(r@) == header_origins(texts(config.allowed_origins@)),
{
    let ghost all = texts(config.allowed_origins@);
    let ghost p = |o: Seq<char>| is_header_bytes(encode_utf8(o));
    let mut r: Vec<String> = Vec::new();
    let mut i: usize = 0;
    proof {
        reveal(Seq::filter);
        assert(all.take(0).filter(p) =~= Seq::<Seq<char>>::empty());
    }
    while i < config.allowed_origins.len()
        invariant
            i <= config.allowed_origins.len(),
            all == texts(config.allowed_origins@),
            p == (|o: Seq<char>| is_header_bytes(encode_utf8(o))),
            texts(r@) == all.take(i as int).filter(p),
        decreases config.allowed_origins.len() - i,
    {
        proof {
            reveal(Seq::filter);
            assert(all.take(i + 1).drop_last() =~= all.take(i as int));
            assert(all.take(i + 1).last() == all[i as int]);
        }
        let origin = config.allowed_origins[i].as_str();
        if is_header_value(origin) {
            let ghost before = r@;
            r.push(copy_text(origin));
            proof {
                assert(texts(r@) =~= texts(before).push(all[i as int]));
            }
        }
        i += 1;
    }
    proof {
        assert(all.take(i as int) =~= all);
    }
    r
}

/// Where no origin is allowed, every request that has one is refused.
pub proof fn law_no_origins_refuse_all(origin: Seq<u8>)
    ensures
        !origin_allowed(Some(origin), Seq::<Seq<char>>::empty()),
        origin_allowed(None, Seq::<Seq<char>>::empty()),
{
}

/// Of origins that were read from a list, those are allowed that stand on it:
/// an entry of the list, in lower case and without white space around it, is
/// the origin in lower case.
pub proof fn law_listed_origins_are_allowed(list: Seq<char>, origin: Seq<u8>)
    ensures
        origin_allowed(Some(origin), non_empty(list_entries(list))) <==> (origin_text(origin).len()
            > 0 && list_entries(list).contains(origin_text(origin))),
{
    let entries = list_entries(list);
    let p = |x: Seq<char>| x.len() > 0;
    let o = origin_text(origin);
    if non_empty(entries).contains(o) {
        entries.lemma_filter_contains_rev(p, o);
        entries.lemma_filter_pred(p, non_empty(entries).index_of(o));
    }
    if o.len() > 0 && entries.contains(o) {
        entries.lemma_filter_contains(p, entries.index_of(o));
    }
}

/// The case of an origin's letters does not matter.
pub proof fn law_origin_case_does_not_matter(a: Seq<u8>, b: Seq<u8>, allowed: Seq<Seq<char>>)
    requires
        header_str(a) is Some,
        header_str(b) is Some,
        ascii_lowercase(header_str(a)->0) == ascii_lowercase(header_str(b)->0),
    ensures
        origin_allowed(Some(a), allowed) == origin_allowed(Some(b), allowed),
{
}

/// A header's value has a text exactly if each of its bytes is a printable
/// ASCII character or a tab, and the text has these characters.
pub proof fn law_headers_are_their_bytes(value: Seq<u8>)
    ensures
        (forall|i: int|
            0 <= i < value.len() ==> 32 <= #[trigger] value[i] <= 126 || value[i] == 9)
            <==> header_str(value) is Some,
        header_str(value) matches Some(t) ==> t.len() == value.len() && forall|i: int|
            0 <= i < t.len() ==> (#[trigger] t[i]) as int == value[i],
{
    if forall|i: int| 0 <= i < value.len() ==> 32 <= #[trigger] value[i] <= 126 || value[i] == 9 {
        assert forall|i: int| 0 <= i < value.len() implies is_visible(#[trigger] value[i]) by {
        }
    }
    if header_str(value) is Some {
        assert forall|i: int| 0 <= i < value.len() implies 32 <= #[trigger] value[i] <= 126
            || value[i] == 9 by {
            assert(is_visible(value[i]));
        }
    }
}

/// A request is let in by its origin exactly if it has none, or if the text of
/// its origin, in lower case, is one of those allowed; an origin that is not
/// printable counts as empty.
pub proof fn law_origins_are_looked_up_in_lower_case(origin: Seq<u8>, allowed: Seq<Seq<char>>)
    ensures
        origin_allowed(None, allowed),
        header_str(origin) matches Some(t) ==> (origin_allowed(Some(origin), allowed)
            <==> allowed.contains(ascii_lowercase(t))),
        header_str(origin) is None ==> (origin_allowed(Some(origin), allowed) <==> allowed.contains(
            Seq::empty(),
        )),
{
}

/// The key of a header is what stands behind `Bearer ` in it, whatever that
/// is; a header that does not start with it, or is not printable, or is
/// missing, has none.
pub proof fn law_keys_stand_behind_bearer(value: Seq<u8>, key: Seq<char>)
    ensures
        header_str(value) == Some("Bearer "@ + key) ==> bearer_key(Some(value)) == key,
        (header_str(value) matches Some(t) && !has_prefix(t, "Bearer "@)) ==> bearer_key(
            Some(value),
        ).len() == 0,
        header_str(value) is None ==> bearer_key(Some(value)).len() == 0,
        bearer_key(None).len() == 0,
{
    law_prefix_comes_off("Bearer "@ + key, "Bearer "@, key);
    if header_str(value) is Some {
        law_prefix_comes_off(header_str(value)->0, "Bearer "@, key);
    }
}

/// The health of the server is open to all. Elsewhere an origin that is not
/// allowed is forbidden, whatever the key. From an allowed origin, writing is
/// let in, and the operator's part is let in with the operator's key alone.
pub proof fn law_surfaces_are_guarded(
    origin: Option<Seq<u8>>,
    authorization: Option<Seq<u8>>,
    config: Config,
)
    ensures
        refusal(Surface::Health, origin, authorization, config) is None,
        !origin_allowed(origin, texts(config.allowed_origins@)) ==> refusal(
            Surface::Ingest,
            origin,
            authorization,
            config,
        ) == Some(Refusal::Forbidden) && refusal(Surface::Admin, origin, authorization, config)
            == Some(Refusal::Forbidden),
        origin_allowed(origin, texts(config.allowed_origins@)) ==> refusal(
            Surface::Ingest,
            origin,
            authorization,
            config,
        ) is None && (if bearer_key(authorization) == config.admin_key@ {
            refusal(Surface::Admin, origin, authorization, config) is None
        } else {
            refusal(Surface::Admin, origin, authorization, config) == Some(Refusal::Unauthorized)
        }),
{
}

/// The origins that browsers are told of are the allowed ones whose bytes can
/// stand in a header, all of them and in order.
pub proof fn law_told_origins_can_stand_in_a_header(
    a: Seq<Seq<char>>,
    b: Seq<Seq<char>>,
    origin: Seq<char>,
)
    ensures
        header_origins(a + b) == header_origins(a) + header_origins(b),
        (forall|i: int|
            0 <= i < encode_utf8(origin).len() ==> 32 <= #[trigger] encode_utf8(origin)[i]
                && encode_utf8(origin)[i] != 127 || encode_utf8(origin)[i] == 9) ==> header_origins(
            seq![origin],
        ) == seq![origin],
        !(forall|i: int|
            0 <= i < encode_utf8(origin).len() ==> 32 <= #[trigger] encode_utf8(origin)[i]
                && encode_utf8(origin)[i] != 127 || encode_utf8(origin)[i] == 9) ==> header_origins(
            seq![origin],
        ).len() == 0,
{
    reveal(Seq::filter);
    let p = |o: Seq<char>| is_header_bytes(encode_utf8(o));
    Seq::filter_distributes_over_add(a, b, p);
    let one = seq![origin];
    assert(one.drop_last() =~= Seq::<Seq<char>>::empty());
    assert(one.last() == origin);
    assert(one.drop_last().filter(p) =~= Seq::<Seq<char>>::empty());
    assert(one.filter(p) =~= if p(origin) {
        seq![origin]
    } else {
        Seq::empty()
    });
}

/// The bytes of a header are those that it has, and a missing one has none.
pub proof fn law_header_bytes_are_its_own(value: &[u8])
    ensures
        header_bytes(Some(value)) == Some(value@),
        header_bytes(None) is None,
{
}

/// Requests to the operator's part are let in exactly with an allowed origin or
/// none, and with the operator's key; the origin is looked at first.
pub proof fn law_operators_are_let_in(
    config: &Config,
    origin: Option<&[u8]>,
    authorization: Option<&[u8]>,
    surface: Surface,
    checked: Result<(), Refusal>,
    admin: Result<(), Refusal>,
    both: Result<(), Refusal>,
    let_through: Result<(), Refusal>,
)
    requires
        call_ensures(check_origin, (config, origin), checked),
        call_ensures(require_admin, (config, authorization), admin),
        call_ensures(require_auth, (config, origin, authorization), both),
        call_ensures(let_in, (config, surface, origin, authorization), let_through),
    ensures
        ({
            let allowed = texts(config.allowed_origins@);
            let from_allowed = match origin {
                Some(o) => allowed.contains(origin_text(o@)),
                None => true,
            };
            let has_key = bearer_key(header_bytes(authorization)) == config.admin_key@;
            &&& checked is Ok <==> from_allowed
            &&& checked matches Err(e) ==> e == Refusal::Forbidden
            &&& admin is Ok <==> has_key
            &&& admin matches Err(e) ==> e == Refusal::Unauthorized
            &&& both is Ok <==> from_allowed && has_key
            &&& both matches Err(e) ==> e == (if from_allowed {
                Refusal::Unauthorized
            } else {
                Refusal::Forbidden
            })
            &&& match surface {
                Surface::Health => let_through is Ok,
                Surface::Ingest => if from_allowed {
                    let_through is Ok
                } else {
                    let_through matches Err(e) && e == Refusal::Forbidden
                },
                Surface::Admin => if !from_allowed {
                    let_through matches Err(e) && e == Refusal::Forbidden
                } else if !has_key {
                    let_through matches Err(e) && e == Refusal::Unauthorized
                } else {
                    let_through is Ok
                },
            }
        }),
{
}

/// A key matches exactly if it is the expected one; the key of a header is what
/// stands behind `Bearer ` in it.
pub proof fn law_keys_match_if_they_are_the_same(
    provided: &str,
    expected: &str,
    same: bool,
    authorization: Option<&[u8]>,
    key: String,
)
    requires
        call_ensures(key_matches, (provided, expected), same),
        call_ensures(bearer, (authorization,), key),
    ensures
        same <==> provided@ == expected@,
        match authorization {
            None => key@.len() == 0,
            Some(v) => match header_str(v@) {
                None => key@.len() == 0,
                Some(t) => if has_prefix(t, "Bearer "@) {
                    t == "Bearer "@ + key@
                } else {
                    key@.len() == 0
                },
            },
        },
{
    if authorization is Some && header_str(authorization->0@) is Some {
        law_prefix_comes_off(header_str(authorization->0@)->0, "Bearer "@, key@);
    }
}

/// A refusal has its status, and browsers are told of the allowed origins that
/// can stand in a header.
pub proof fn law_refusals_have_their_status(
    r: &Refusal,
    status: u16,
    config: &Config,
    told: Vec<String>,
    origin: Seq<char>,
)
    requires
        call_ensures(Refusal::status, (r,), status),
        call_ensures(cors_origins, (config,), told),
    ensures
        *r == Refusal::Unauthorized ==> status == 401,
        *r == Refusal::Forbidden ==> status == 403,
        texts(told@).contains(origin) <==> texts(config.allowed_origins@).contains(origin)
            && is_header_bytes(encode_utf8(origin)),
{
    let all = texts(config.allowed_origins@);
    let p = |o: Seq<char>| is_header_bytes(encode_utf8(o));
    if texts(told@).contains(origin) {
        all.lemma_filter_contains_rev(p, origin);
        all.lemma_filter_pred(p, all.filter(p).index_of(origin));
    }
    if all.contains(origin) && p(origin) {
        all.lemma_filter_contains(p, all.index_of(origin));
    }
}

} // verus!
