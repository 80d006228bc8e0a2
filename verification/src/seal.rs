//! The names of sealed log files. Each name holds the time at which its file
//! was sealed, and files are ordered by it.
use vstd::prelude::*;

use crate::text::{chars_of, copy_text, ends_with, parse_int, string_of, strip_prefix, text_before};
use crate::text::{decimal, digit_char, has_prefix, has_suffix, law_decimal_reads_back};
use crate::text::{law_prefix_comes_off, law_suffix_is_at_the_end};
use crate::text::{law_text_order_is_total, law_text_order_is_transitive, lex_lt, signed_decimal};
use crate::text::u64_text;
use crate::time::lemma_lex_append;

verus! {

/// The name of a file that was sealed at a time in milliseconds.
pub open spec fn sealed_name(millis: int) -> Seq<char> {
    "sealed-"@ + signed_decimal(millis) + ".ndjson"@
}

/// Whether a name is that of a sealed file.
pub open spec fn is_sealed_name(name: Seq<char>) -> bool {
    has_prefix(name, "sealed-"@) && has_suffix(name, ".ndjson"@)
}

/// The time that a name holds, where it is one that sealing gives.
pub open spec fn seal_time(name: Seq<char>) -> Option<int> {
    if exists|k: int| name == #[trigger] sealed_name(k) {
        Some(choose|k: int| name == #[trigger] sealed_name(k))
    } else {
        None
    }
}

/// Whether a name holds the time at which its file was sealed.
pub open spec fn holds_time(name: Seq<char>) -> bool {
    seal_time(name) is Some
}

/// Whether one file was sealed before another. Names that hold no time are put
/// first, in the order of texts, so that the order is total.
pub open spec fn sealed_before(a: Seq<char>, b: Seq<char>) -> bool {
    match (seal_time(a), seal_time(b)) {
        (Some(s), Some(t)) => s < t,
        (None, Some(_)) => true,
        (Some(_), None) => false,
        (None, None) => lex_lt(a, b),
    }
}

/// The number that digits write.
spec fn number_of(d: Seq<char>) -> nat
    decreases d.len(),
{
    if d.len() == 0 {
        0
    } else {
        number_of(d.drop_last()) * 10 + ((d.last() as int) - 48) as nat
    }
}

/// Whether a text is a number in decimal, without zeros in front.
spec fn is_decimal(d: Seq<char>) -> bool {
    &&& d.len() > 0
    &&& forall|i: int| 0 <= i < d.len() ==> '0' <= #[trigger] d[i] <= '9'
    &&& d.len() > 1 ==> d[0] != '0'
}

proof fn lemma_is_decimal(d: Seq<char>)
    requires
        is_decimal(d),
    ensures
        decimal(number_of(d)) == d,
    decreases d.len(),
{
    let front = d.drop_last();
    let last = d[d.len() - 1];
    assert('0' <= last <= '9');
    if d.len() == 1 {
        assert(number_of(front) == 0);
        assert(decimal(number_of(d)) =~= d);
    } else {
        assert forall|i: int| 0 <= i < front.len() implies '0' <= #[trigger] front[i] <= '9' by {
            assert(front[i] == d[i]);
        }
        assert(front[0] == d[0]);
        lemma_is_decimal(front);
        let n = number_of(front);
        if n == 0 {
            assert(decimal(n)[0] == '0');
        }
        let digit = (last as int) - 48;
        assert(number_of(d) == n * 10 + digit);
        assert(number_of(d) / 10 == n && number_of(d) % 10 == digit);
        assert(decimal(number_of(d)) =~= d);
    }
}

proof fn lemma_decimal_is(n: nat)
    ensures
        is_decimal(decimal(n)),
        number_of(decimal(n)) == n,
        n > 0 ==> decimal(n)[0] != '0',
    decreases n,
{
    reveal_with_fuel(number_of, 2);
    let d = decimal(n);
    if n < 10 {
        assert(d.drop_last() =~= Seq::<char>::empty());
    } else {
        lemma_decimal_is(n / 10);
        let front = decimal(n / 10);
        assert(d.drop_last() =~= front);
        assert(d[0] == front[0]);
        assert forall|i: int| 0 <= i < d.len() implies '0' <= #[trigger] d[i] <= '9' by {
            if i < front.len() {
                assert(d[i] == front[i]);
            }
        }
    }
}

/// A number that is not smaller has no fewer digits.
proof fn lemma_longer(a: nat, b: nat)
    requires
        a <= b,
    ensures
        1 <= decimal(a).len() <= decimal(b).len(),
    decreases b,
{
    if b < 10 {
    } else if a < 10 {
        lemma_longer(0, b / 10);
    } else {
        lemma_longer(a / 10, b / 10);
    }
}

/// Of two numbers with as many digits, the smaller one sorts first.
proof fn lemma_decimal_order(a: nat, b: nat)
    requires
        a < b,
        decimal(a).len() == decimal(b).len(),
    ensures
        lex_lt(decimal(a), decimal(b)),
    decreases b,
{
    if b < 10 {
        assert(decimal(a)[0] == digit_char(a as int));
        assert(decimal(b)[0] == digit_char(b as int));
    } else {
        lemma_longer(0, b / 10);
        assert(a >= 10);
        let p = decimal(a / 10);
        let q = decimal(b / 10);
        let r = seq![digit_char((a % 10) as int)];
        let s = seq![digit_char((b % 10) as int)];
        assert(decimal(a) =~= p + r);
        assert(decimal(b) =~= q + s);
        if a / 10 < b / 10 {
            lemma_decimal_order(a / 10, b / 10);
        } else {
            assert(a / 10 == b / 10);
            assert(a % 10 < b % 10);
            assert(lex_lt(r, s));
        }
        lemma_lex_append(p, q, r, s);
    }
}

/// Numbers are ordered by how many digits they have, then as texts.
proof fn lemma_numbers_by_text(x: Seq<char>, y: Seq<char>)
    requires
        is_decimal(x),
        is_decimal(y),
    ensures
        number_of(x) < number_of(y) <==> x.len() < y.len() || (x.len() == y.len() && lex_lt(x, y)),
{
    lemma_is_decimal(x);
    lemma_is_decimal(y);
    let (a, b) = (number_of(x), number_of(y));
    law_text_order_is_total(x, y);
    if a < b {
        lemma_longer(a, b);
        if x.len() == y.len() {
            lemma_decimal_order(a, b);
        }
    } else {
        lemma_longer(b, a);
        if b < a && x.len() == y.len() {
            lemma_decimal_order(b, a);
        }
    }
}

proof fn lemma_signed(k: int)
    ensures
        k < 0 ==> signed_decimal(k) == seq!['-'] + decimal((-k) as nat),
        k >= 0 ==> signed_decimal(k) == decimal(k as nat) && signed_decimal(k)[0] != '-',
        signed_decimal(k).len() > 0,
{
    if k >= 0 {
        lemma_decimal_is(k as nat);
        assert('0' <= decimal(k as nat)[0]);
    }
}

/// The time of sealing is what the name holds: different times give different
/// names.
pub proof fn law_names_hold_their_time(k: int)
    ensures
        seal_time(sealed_name(k)) == Some(k),
        is_sealed_name(sealed_name(k)),
        !is_sealed_name("current.ndjson"@),
{
    let name = sealed_name(k);
    let m = seal_time(name)->0;
    assert(name == sealed_name(m));
    lemma_middle(k);
    lemma_middle(m);
    lemma_signed(k);
    lemma_signed(m);
    if k < 0 {
        let a = decimal((-k) as nat);
        assert((seq!['-'] + a)[0] == '-');
        let b = decimal((-m) as nat);
        assert((seq!['-'] + a).drop_first() =~= a);
        assert((seq!['-'] + b).drop_first() =~= b);
        lemma_decimal_is((-k) as nat);
        lemma_decimal_is((-m) as nat);
    } else {
        if m < 0 {
            assert((seq!['-'] + decimal((-m) as nat))[0] == '-');
        }
        lemma_decimal_is(k as nat);
        lemma_decimal_is(m as nat);
    }
    assert(name.take("sealed-"@.len() as int) =~= "sealed-"@);
    assert(name.skip(name.len() - ".ndjson"@.len()) =~= ".ndjson"@);
    reveal_strlit("sealed-");
    reveal_strlit("current.ndjson");
    assert("current.ndjson"@.take(7)[0] == 'c');
}

/// What stands between the start and the end of a sealed file's name.
proof fn lemma_middle(k: int)
    ensures
        ({
            let rest = signed_decimal(k) + ".ndjson"@;
            &&& sealed_name(k).skip("sealed-"@.len() as int) == rest
            &&& has_prefix(sealed_name(k), "sealed-"@)
            &&& has_suffix(rest, ".ndjson"@)
            &&& rest.take(rest.len() - ".ndjson"@.len()) == signed_decimal(k)
        }),
{
    let name = sealed_name(k);
    let rest = signed_decimal(k) + ".ndjson"@;
    assert(name =~= "sealed-"@ + rest);
    assert(name.skip("sealed-"@.len() as int) =~= rest);
    assert(name.take("sealed-"@.len() as int) =~= "sealed-"@);
    assert(rest.skip(rest.len() - ".ndjson"@.len()) =~= ".ndjson"@);
    assert(rest.take(rest.len() - ".ndjson"@.len()) =~= signed_decimal(k));
}

/// Files are ordered by the times at which they were sealed.
pub proof fn law_sealed_files_are_ordered_by_time(a: int, b: int)
    ensures
        sealed_before(sealed_name(a), sealed_name(b)) <==> a < b,
{
    law_names_hold_their_time(a);
    law_names_hold_their_time(b);
}

/// Times with the same number of digits are ordered as the names that hold
/// them.
pub proof fn law_names_of_one_length_sort_by_time(a: nat, b: nat)
    requires
        decimal(a).len() == decimal(b).len(),
    ensures
        lex_lt(sealed_name(a as int), sealed_name(b as int)) <==> a < b,
{
    if a < b {
        lemma_names_grow(a, b);
    } else if b < a {
        lemma_names_grow(b, a);
    }
    law_text_order_is_total(sealed_name(a as int), sealed_name(b as int));
}

proof fn lemma_names_grow(a: nat, b: nat)
    requires
        a < b,
        decimal(a).len() == decimal(b).len(),
    ensures
        lex_lt(sealed_name(a as int), sealed_name(b as int)),
{
    let start = "sealed-"@;
    let end = ".ndjson"@;
    lemma_decimal_order(a, b);
    lemma_lex_append(decimal(a), decimal(b), end, end);
    crate::text::lemma_lex_common_start(start, decimal(a) + end, decimal(b) + end);
    assert(sealed_name(a as int) =~= start + (decimal(a) + end));
    assert(sealed_name(b as int) =~= start + (decimal(b) + end));
}

/// The order of sealed files is a strict total order.
pub proof fn law_sealed_order_is_total(a: Seq<char>, b: Seq<char>, c: Seq<char>)
    ensures
        sealed_before(a, b) || sealed_before(b, a) || a == b,
        !(sealed_before(a, b) && sealed_before(b, a)),
        sealed_before(a, b) && sealed_before(b, c) ==> sealed_before(a, c),
{
    law_text_order_is_total(a, b);
    if lex_lt(a, b) && lex_lt(b, c) {
        law_text_order_is_transitive(a, b, c);
    }
}

/// A time in milliseconds, in decimal. It has as many digits as it needs.
pub(crate) struct SealTime {
    negative: bool,
    digits: String,
}

impl SealTime {
    pub(crate) closed spec fn valid(self) -> bool {
        is_decimal(self.digits@) && (self.negative ==> number_of(self.digits@) > 0)
    }

    pub(crate) closed spec fn value(self) -> int {
        if self.negative {
            -number_of(self.digits@)
        } else {
            number_of(self.digits@) as int
        }
    }

    /// The time that is so many milliseconds after 1970-01-01T00:00:00Z.
    pub(crate) fn at(millis: i64) -> (r: SealTime)
        ensures
            r.valid(),
            r.value() == millis,
    {
        let size: u64 = if millis < 0 {
            (-(millis as i128)) as u64
        } else {
            millis as u64
        };
        proof {
            lemma_decimal_is(size as nat);
        }
        SealTime { negative: millis < 0, digits: u64_text(size) }
    }

    /// Whether the time comes before another.
    pub(crate) fn before(&self, other: &SealTime) -> (r: bool)
        requires
            self.valid(),
            other.valid(),
        ensures
            r == (self.value() < other.value()),
    {
        proof {
            lemma_numbers_by_text(self.digits@, other.digits@);
            lemma_numbers_by_text(other.digits@, self.digits@);
        }
        if self.negative {
            !other.negative || less(other.digits.as_str(), self.digits.as_str())
        } else {
            !other.negative && less(self.digits.as_str(), other.digits.as_str())
        }
    }

    /// The time a millisecond later.
    pub(crate) fn next(&self) -> (r: SealTime)
        requires
            self.valid(),
            self.value() >= i64::MIN,
        ensures
            r.valid(),
            r.value() == self.value() + 1,
    {
        let ghost n = number_of(self.digits@);
        proof {
            lemma_is_decimal(self.digits@);
        }
        if self.negative {
            proof {
                law_decimal_reads_back(n, 0, u64::MAX as int);
            }
            let size: u64 = match parse_int(self.digits.as_str(), 0, u64::MAX as i128) {
                Ok(size) => size as u64,
                Err(_) => 1,
            };
            proof {
                lemma_decimal_is((size - 1) as nat);
            }
            SealTime { negative: size > 1, digits: u64_text(size - 1) }
        } else {
            let digits = successor(chars_of(self.digits.as_str()));
            proof {
                lemma_decimal_is(n + 1);
            }
            SealTime { negative: false, digits: string_of(digits.as_slice()) }
        }
    }

    /// The name of a file that was sealed at the time.
    pub(crate) fn name(&self) -> (r: String)
        requires
            self.valid(),
        ensures
            r@ == sealed_name(self.value()),
    {
        proof {
            lemma_is_decimal(self.digits@);
        }
        let mut name = copy_text("sealed-");
        if self.negative {
            name.push('-');
        }
        name.append(self.digits.as_str());
        name.append(".ndjson");
        proof {
            assert(name@ =~= sealed_name(self.value()));
        }
        name
    }

    /// The time that a text writes in decimal.
    fn of_text(s: &str) -> (r: Option<SealTime>)
        ensures
            match r {
                Some(t) => t.valid() && s@ == signed_decimal(t.value()),
                None => forall|k: int| s@ != #[trigger] signed_decimal(k),
            },
    {
        let x = chars_of(s);
        let negative: bool = x.len() > 0 && x[0] == '-';
        let from: usize = if negative {
            1
        } else {
            0
        };
        let mut digits: Vec<char> = Vec::new();
        let mut i: usize = from;
        while i < x.len()
            invariant
                from <= i <= x.len(),
                digits@ == x@.subrange(from as int, i as int),
            decreases x.len() - i,
        {
            digits.push(x[i]);
            i += 1;
        }
        proof {
            assert(digits@ =~= s@.skip(from as int));
            assert forall|k: int| s@ == #[trigger] signed_decimal(k) implies is_decimal(digits@)
                && negative == (k < 0) && (negative ==> number_of(digits@) > 0) by {
                lemma_digits_of(k, digits@);
            }
        }
        if !is_number(digits.as_slice()) || (negative && digits[0] == '0') {
            proof {
                if is_decimal(digits@) && digits@[0] == '0' {
                    assert(digits@ =~= seq!['0']);
                    assert(decimal(0) =~= digits@);
                    lemma_decimal_is(0);
                }
            }
            return None;
        }
        proof {
            lemma_is_decimal(digits@);
            if number_of(digits@) == 0 {
                assert(digits@[0] == digit_char(0));
            }
            if negative {
                assert(s@ =~= seq!['-'] + digits@);
            } else {
                assert(s@ =~= digits@);
            }
        }
        Some(SealTime { negative, digits: string_of(digits.as_slice()) })
    }

    /// The time that a name holds, where it is one that sealing gives.
    pub(crate) fn of_name(name: &str) -> (r: Option<SealTime>)
        ensures
            match r {
                Some(t) => t.valid() && seal_time(name@) == Some(t.value()),
                None => seal_time(name@) is None,
            },
    {
        match middle(name) {
            None => None,
            Some(m) => match SealTime::of_text(m.as_str()) {
                None => None,
                Some(t) => {
                    proof {
                        law_names_hold_their_time(t.value());
                    }
                    Some(t)
                },
            },
        }
    }
}

proof fn lemma_digits_of(k: int, digits: Seq<char>)
    requires
        digits == signed_decimal(k).skip(
            (if signed_decimal(k).len() > 0 && signed_decimal(k)[0] == '-' {
                1int
            } else {
                0int
            }),
        ),
    ensures
        is_decimal(digits),
        (signed_decimal(k)[0] == '-') == (k < 0),
        k < 0 ==> number_of(digits) > 0,
{
    lemma_signed(k);
    if k < 0 {
        let d = decimal((-k) as nat);
        assert((seq!['-'] + d)[0] == '-');
        assert((seq!['-'] + d).skip(1) =~= d);
        lemma_decimal_is((-k) as nat);
    } else {
        assert(signed_decimal(k).skip(0) =~= decimal(k as nat));
        lemma_decimal_is(k as nat);
    }
}

/// What stands between the start and the end of a sealed file's name.
fn middle(name: &str) -> (r: Option<String>)
    ensures
        match r {
            Some(m) => name@ == "sealed-"@ + m@ + ".ndjson"@ && forall|k: int|
                name@ == #[trigger] sealed_name(k) ==> m@ == signed_decimal(k),
            None => forall|k: int| name@ != #[trigger] sealed_name(k),
        },
{
    proof {
        reveal_strlit(".ndjson");
        assert forall|k: int| name@ == #[trigger] sealed_name(k) implies has_prefix(
            name@,
            "sealed-"@,
        ) && has_suffix(name@.skip("sealed-"@.len() as int), ".ndjson"@) && name@.skip(
            "sealed-"@.len() as int,
        ).take(name@.len() - "sealed-"@.len() - 7) == signed_decimal(k) by {
            lemma_middle(k);
        }
    }
    let rest = match strip_prefix(name, "sealed-") {
        Some(rest) => rest,
        None => {
            return None;
        },
    };
    if !ends_with(rest.as_str(), ".ndjson") {
        return None;
    }
    let x = chars_of(rest.as_str());
    let end: usize = x.len() - 7;
    let mut front: Vec<char> = Vec::new();
    let mut i: usize = 0;
    while i < end
        invariant
            i <= end <= x.len(),
            front@ == x@.take(i as int),
        decreases end - i,
    {
        front.push(x[i]);
        i += 1;
    }
    proof {
        assert(rest@ =~= front@ + rest@.skip(end as int));
        assert(name@ =~= "sealed-"@ + rest@);
        assert(name@ =~= "sealed-"@ + front@ + ".ndjson"@);
    }
    Some(string_of(front.as_slice()))
}

/// Whether one file was sealed before another.
pub(crate) fn was_sealed_before(a: &str, b: &str) -> (r: bool)
    ensures
        r == sealed_before(a@, b@),
{
    match (SealTime::of_name(a), SealTime::of_name(b)) {
        (Some(s), Some(t)) => s.before(&t),
        (None, Some(_)) => true,
        (Some(_), None) => false,
        (None, None) => text_before(a, b),
    }
}

/// Whether a name holds the time at which its file was sealed.
pub(crate) fn has_time(name: &str) -> (r: bool)
    ensures
        r == holds_time(name@),
{
    SealTime::of_name(name).is_some()
}

fn less(a: &str, b: &str) -> (r: bool)
    requires
        is_decimal(a@),
        is_decimal(b@),
    ensures
        r == (number_of(a@) < number_of(b@)),
{
    proof {
        lemma_numbers_by_text(a@, b@);
    }
    let n: usize = chars_of(a).len();
    let m: usize = chars_of(b).len();
    n < m || (n == m && text_before(a, b))
}

fn is_number(d: &[char]) -> (r: bool)
    ensures
        r == is_decimal(d@),
{
    if d.len() == 0 || (d.len() > 1 && d[0] == '0') {
        return false;
    }
    let mut i: usize = 0;
    while i < d.len()
        invariant
            i <= d.len(),
            forall|j: int| 0 <= j < i ==> '0' <= #[trigger] d@[j] <= '9',
        decreases d.len() - i,
    {
        let c: char = d[i];
        if c < '0' || c > '9' {
            return false;
        }
        i += 1;
    }
    true
}

fn successor(d: Vec<char>) -> (r: Vec<char>)
    requires
        is_decimal(d@),
    ensures
        r@ == decimal(number_of(d@) + 1),
    decreases d@.len(),
{
    let ghost n = number_of(d@);
    let ghost all = d@;
    proof {
        lemma_is_decimal(d@);
        assert('0' <= all[all.len() - 1] <= '9');
    }
    let mut d = d;
    let last: char = d[d.len() - 1];
    d.pop();
    proof {
        assert(d@ =~= all.drop_last());
        assert(n % 10 == (last as int) - 48);
    }
    if last != '9' {
        let code: u8 = last as u8 + 1;
        d.push(code as char);
        proof {
            if n >= 10 {
                assert((n + 1) / 10 == n / 10);
            }
            assert(d@ =~= decimal(n + 1));
        }
        d
    } else if d.len() == 0 {
        proof {
            if n >= 10 {
                lemma_longer(0, n / 10);
            }
            assert(n == 9);
        }
        let mut r: Vec<char> = Vec::new();
        r.push('1');
        r.push('0');
        proof {
            assert(decimal(1) =~= seq!['1']);
            assert(r@ =~= decimal(10));
        }
        r
    } else {
        proof {
            assert(n >= 10);
            assert(d@ == decimal(n / 10));
            lemma_decimal_is(n / 10);
            assert((n + 1) / 10 == n / 10 + 1 && (n + 1) % 10 == 0);
        }
        let mut r = successor(d);
        r.push('0');
        proof {
            assert(r@ =~= decimal(n + 1));
        }
        r
    }
}

/// The name of a sealed file is the time in decimal, with a minus sign if it is
/// negative, between `sealed-` and `.ndjson`.
pub proof fn law_names_write_their_time(n: nat)
    ensures
        sealed_name(n as int) == "sealed-"@ + decimal(n) + ".ndjson"@,
        n > 0 ==> sealed_name(-n) == "sealed-"@ + (seq!['-'] + decimal(n)) + ".ndjson"@,
{
}

/// Whatever stands between `sealed-` and `.ndjson`, the name is that of a
/// sealed file; and such a name starts and ends so.
pub proof fn law_sealed_names_start_and_end_so(name: Seq<char>, x: Seq<char>)
    ensures
        is_sealed_name("sealed-"@ + x + ".ndjson"@),
        is_sealed_name(name) ==> name == "sealed-"@ + name.skip(7) && name == name.take(
            name.len() - 7,
        ) + ".ndjson"@,
        name.len() >= 14 && name == "sealed-"@ + name.skip(7) && name == name.take(name.len() - 7)
            + ".ndjson"@ ==> is_sealed_name(name),
{
    reveal_strlit("sealed-");
    reveal_strlit(".ndjson");
    let whole = "sealed-"@ + x + ".ndjson"@;
    assert(whole =~= "sealed-"@ + (x + ".ndjson"@));
    law_prefix_comes_off(whole, "sealed-"@, x + ".ndjson"@);
    law_suffix_is_at_the_end(whole, ".ndjson"@, "sealed-"@ + x);
    law_prefix_comes_off(name, "sealed-"@, name.skip(7));
    law_suffix_is_at_the_end(name, ".ndjson"@, name.take(name.len() - 7));
}

/// A name holds a time exactly if it is the name of that time, and then it is
/// that one. Names without a time come first, and are ordered as texts.
pub proof fn law_names_are_ordered_by_time_then_text(a: Seq<char>, b: Seq<char>, k: int)
    ensures
        seal_time(a) == Some(k) <==> a == sealed_name(k),
        holds_time(a) <==> exists|m: int| a == #[trigger] sealed_name(m),
        !holds_time(a) && holds_time(b) ==> sealed_before(a, b) && !sealed_before(b, a),
        !holds_time(a) && !holds_time(b) ==> (sealed_before(a, b) <==> lex_lt(a, b)),
{
    law_names_hold_their_time(k);
    if a == sealed_name(k) {
        law_names_hold_their_time(k);
    }
}

} // verus!
