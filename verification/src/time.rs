//! Instants of UTC, their RFC 3339 form and their date.
use vstd::prelude::*;

use crate::text::{
    decimal, fixed_decimal, law_text_order_is_total, lemma_lex_by_start, lemma_lex_common_start,
    lex_lt,
};

verus! {

/// Whether a year of the Gregorian calendar has a 29th of February.
pub open spec fn is_leap(year: int) -> bool {
    year % 4 == 0 && (year % 100 != 0 || year % 400 == 0)
}

/// The number of days of a month.
pub open spec fn days_in_month(year: int, month: int) -> int {
    if month == 2 {
        if is_leap(year) {
            29
        } else {
            28
        }
    } else if month == 4 || month == 6 || month == 9 || month == 11 {
        30
    } else {
        31
    }
}

/// The number of days of the year before a month starts.
pub open spec fn days_before_month(year: int, month: int) -> int
    decreases month,
{
    if month <= 1 {
        0
    } else {
        days_before_month(year, month - 1) + days_in_month(year, month - 1)
    }
}

/// The number of days from the first day of year 1 to that of another year.
pub open spec fn days_before_year(year: int) -> int {
    365 * (year - 1) + (year - 1) / 4 - (year - 1) / 100 + (year - 1) / 400
}

/// A day of the Gregorian calendar.
pub struct Date {
    pub year: int,
    pub month: int,
    pub day: int,
}

impl Date {
    /// Whether the calendar has such a day.
    pub open spec fn valid(self) -> bool {
        &&& 1 <= self.month <= 12
        &&& 1 <= self.day <= days_in_month(self.year, self.month)
    }

    /// The number of days from 1970-01-01, which is day 0.
    pub open spec fn number(self) -> int {
        days_before_year(self.year) + days_before_month(self.year, self.month) + self.day - 1
            - 719162
    }

    /// Whether one day comes before another, by year, month and day.
    pub open spec fn before(self, other: Date) -> bool {
        ||| self.year < other.year
        ||| self.year == other.year && self.month < other.month
        ||| self.year == other.year && self.month == other.month && self.day < other.day
    }

    /// The day after.
    pub open spec fn next(self) -> Date {
        if self.day < days_in_month(self.year, self.month) {
            Date { year: self.year, month: self.month, day: self.day + 1 }
        } else if self.month < 12 {
            Date { year: self.year, month: self.month + 1, day: 1 }
        } else {
            Date { year: self.year + 1, month: 1, day: 1 }
        }
    }

    /// The day before.
    pub open spec fn previous(self) -> Date {
        if self.day > 1 {
            Date { year: self.year, month: self.month, day: self.day - 1 }
        } else if self.month > 1 {
            Date {
                year: self.year,
                month: self.month - 1,
                day: days_in_month(self.year, self.month - 1),
            }
        } else {
            Date { year: self.year - 1, month: 12, day: 31 }
        }
    }
}

/// The day of the calendar with a given number.
pub open spec fn date_of(number: int) -> Date {
    choose|d: Date| d.valid() && #[trigger] d.number() == number
}

proof fn lemma_months(year: int)
    ensures
        days_before_month(year, 1) == 0,
        days_before_month(year, 2) == 31,
        days_before_month(year, 3) == 31 + days_in_month(year, 2),
        days_before_month(year, 4) == 62 + days_in_month(year, 2),
        days_before_month(year, 5) == 92 + days_in_month(year, 2),
        days_before_month(year, 6) == 123 + days_in_month(year, 2),
        days_before_month(year, 7) == 153 + days_in_month(year, 2),
        days_before_month(year, 8) == 184 + days_in_month(year, 2),
        days_before_month(year, 9) == 215 + days_in_month(year, 2),
        days_before_month(year, 10) == 245 + days_in_month(year, 2),
        days_before_month(year, 11) == 276 + days_in_month(year, 2),
        days_before_month(year, 12) == 306 + days_in_month(year, 2),
        days_before_month(year, 13) == 337 + days_in_month(year, 2),
{
    reveal_with_fuel(days_before_month, 14);
}

proof fn lemma_year_length(year: int)
    ensures
        days_before_year(year + 1) == days_before_year(year) + 337 + days_in_month(year, 2),
{
    lemma_quotient_steps(year, 4);
    lemma_quotient_steps(year, 100);
    lemma_quotient_steps(year, 400);
    lemma_divisible(year, 100, 4, 25);
    lemma_divisible(year, 400, 100, 4);
    let y = year + 1;
    assert(y - 1 == year);
}

/// A quotient steps up exactly at the multiples of the divisor.
proof fn lemma_quotient_steps(n: int, d: int)
    by (nonlinear_arith)
    requires
        d > 1,
    ensures
        n % d == 0 ==> n / d == (n - 1) / d + 1,
        n % d != 0 ==> n / d == (n - 1) / d,
{
    let q = n / d;
    let r = n % d;
    assert(n == d * q + r);
    if r == 0 {
        assert(n - 1 == d * (q - 1) + (d - 1));
    } else {
        assert(n - 1 == d * q + (r - 1));
    }
}

proof fn lemma_divisible(n: int, d: int, e: int, f: int)
    by (nonlinear_arith)
    requires
        e > 0,
        f > 0,
        d == e * f,
    ensures
        n % d == 0 ==> n % e == 0,
{
    if n % d == 0 {
        assert(n == d * (n / d));
        assert(n == e * (f * (n / d)));
    }
}

proof fn lemma_next(d: Date)
    requires
        d.valid(),
    ensures
        d.next().valid(),
        d.next().number() == d.number() + 1,
{
    lemma_months(d.year);
    lemma_months(d.year + 1);
    lemma_year_length(d.year);
}

proof fn lemma_previous(d: Date)
    requires
        d.valid(),
    ensures
        d.previous().valid(),
        d.previous().number() == d.number() - 1,
{
    lemma_months(d.year);
    lemma_months(d.year - 1);
    lemma_year_length(d.year - 1);
}

/// Every number is that of a day.
proof fn lemma_date_exists(number: int) -> (d: Date)
    ensures
        d.valid(),
        d.number() == number,
    decreases if number < 0 { -number } else { number },
{
    if number == 0 {
        let d = Date { year: 1970, month: 1, day: 1 };
        lemma_months(1970);
        d
    } else if number > 0 {
        let d = lemma_date_exists(number - 1);
        lemma_next(d);
        d.next()
    } else {
        let d = lemma_date_exists(number + 1);
        lemma_previous(d);
        d.previous()
    }
}

/// The days of a year come one after another, and stay within the year.
proof fn lemma_within_year(d: Date)
    requires
        d.valid(),
    ensures
        0 <= days_before_month(d.year, d.month) + d.day - 1 < 337 + days_in_month(d.year, 2),
{
    lemma_months(d.year);
}

proof fn lemma_years_grow(a: int, b: int)
    requires
        a <= b,
    ensures
        days_before_year(a) <= days_before_year(b),
    decreases b - a,
{
    if a < b {
        lemma_years_grow(a, b - 1);
        lemma_year_length(b - 1);
    }
}

/// Days are numbered in the order of the calendar.
pub proof fn law_days_are_numbered_in_order(a: Date, b: Date)
    requires
        a.valid(),
        b.valid(),
    ensures
        a.before(b) <==> a.number() < b.number(),
        a == b <==> a.number() == b.number(),
{
    if a.before(b) {
        lemma_number_grows(a, b);
    }
    if b.before(a) {
        lemma_number_grows(b, a);
    }
}

proof fn lemma_number_grows(a: Date, b: Date)
    requires
        a.valid(),
        b.valid(),
        a.before(b),
    ensures
        a.number() < b.number(),
{
    lemma_months(a.year);
    lemma_within_year(a);
    lemma_within_year(b);
    if a.year < b.year {
        lemma_year_length(a.year);
        lemma_years_grow(a.year + 1, b.year);
    }
}

/// Every day number stands for exactly one day of the calendar.
pub proof fn law_date_of_number(number: int)
    ensures
        date_of(number).valid(),
        date_of(number).number() == number,
        forall|d: Date| d.valid() && #[trigger] d.number() == number ==> d == date_of(number),
{
    let d = lemma_date_exists(number);
    assert(d.valid() && d.number() == number);
    let chosen = date_of(number);
    assert forall|e: Date| e.valid() && #[trigger] e.number() == number implies e == chosen by {
        law_days_are_numbered_in_order(e, chosen);
    }
}

/// A year, with four digits; a year outside 0 to 9999 has a sign in front.
pub open spec fn year_text(year: int) -> Seq<char> {
    if 0 <= year <= 9999 {
        fixed_decimal(year as nat, 4)
    } else {
        let n = (if year < 0 {
            -year
        } else {
            year
        }) as nat;
        let sign = if year < 0 {
            '-'
        } else {
            '+'
        };
        seq![sign] + if n <= 9999 {
            fixed_decimal(n, 4)
        } else {
            decimal(n)
        }
    }
}

/// A day as `YYYY-MM-DD`.
pub open spec fn date_text(d: Date) -> Seq<char> {
    year_text(d.year) + seq!['-'] + fixed_decimal(d.month as nat, 2) + seq!['-'] + fixed_decimal(
        d.day as nat,
        2,
    )
}

/// The time of day as `HH:MM:SS.mmm`. A leap second is the 60th of its minute.
pub open spec fn time_text(secs: int, nanos: int) -> Seq<char> {
    let s = secs % 86_400;
    let leap = nanos / 1_000_000_000;
    let millis = nanos % 1_000_000_000 / 1_000_000;
    fixed_decimal((s / 3600) as nat, 2) + seq![':'] + fixed_decimal((s / 60 % 60) as nat, 2) + seq![
        ':',
    ] + fixed_decimal((s % 60 + leap) as nat, 2) + seq!['.'] + fixed_decimal(millis as nat, 3)
}

/// The day that an instant falls on.
pub open spec fn day_of(secs: int) -> int {
    secs / 86_400
}

/// An instant as `YYYY-MM-DDTHH:MM:SS.mmmZ`.
pub open spec fn rfc3339_text(secs: int, nanos: int) -> Seq<char> {
    date_text(date_of(day_of(secs))) + seq!['T'] + time_text(secs, nanos) + seq!['Z']
}

/// Whether seconds since 1970-01-01T00:00:00Z and nanoseconds are an instant:
/// the year is one of -262143 to 262142, and nanoseconds above a second are
/// those of a leap second, at the end of a minute.
pub open spec fn is_instant(secs: int, nanos: int) -> bool {
    &&& -8_334_601_228_800 <= secs <= 8_210_266_876_799
    &&& 0 <= nanos < 2_000_000_000
    &&& nanos >= 1_000_000_000 ==> secs % 60 == 59
}

/// Whether the year of an instant has four digits.
pub open spec fn has_plain_year(secs: int) -> bool {
    0 <= date_of(day_of(secs)).year <= 9999
}

/// What `DateTime::parse_from_rfc3339` reads: seconds and nanoseconds of UTC,
/// or nothing where the text is not RFC 3339.
pub uninterp spec fn rfc3339_value(s: Seq<char>) -> Option<(i64, u32)>;

/// chrono's `DateTime::parse_from_rfc3339`, moved to UTC. What it accepts and
/// reads is the RFC 3339 grammar and stays a name; what it reads is an
/// instant.
#[verifier::external_body]
fn parse_from_rfc3339(s: &str) -> (r: Option<(i64, u32)>)
    ensures
        r == rfc3339_value(s@),
        r matches Some(p) ==> is_instant(p.0 as int, p.1 as int),
{
    match chrono::DateTime::parse_from_rfc3339(s) {
        Ok(t) => Some((t.timestamp(), t.timestamp_subsec_nanos())),
        Err(_) => None,
    }
}

/// chrono's `DateTime::to_rfc3339_opts` of a UTC instant, with milliseconds
/// and `Z`: date, `T`, time of day cut to milliseconds, `Z`. Where the year
/// has four digits, `DateTime::parse_from_rfc3339` reads the instant back, to
/// the millisecond.
#[verifier::external_body]
fn to_rfc3339(secs: i64, nanos: u32) -> (r: String)
    requires
        is_instant(secs as int, nanos as int),
    ensures
        r@ == rfc3339_text(secs as int, nanos as int),
        has_plain_year(secs as int) ==> rfc3339_value(r@) == Some(
            (secs, (nanos / 1_000_000 * 1_000_000) as u32),
        ),
{
    let t = chrono::DateTime::from_timestamp(secs, nanos).unwrap();
    t.to_rfc3339_opts(chrono::SecondsFormat::Millis, true)
}

/// chrono's `DateTime::format` of a UTC instant with `%Y-%m-%d`: its date.
#[verifier::external_body]
fn format_date(secs: i64, nanos: u32) -> (r: String)
    requires
        is_instant(secs as int, nanos as int),
    ensures
        r@ == date_text(date_of(day_of(secs as int))),
{
    let t = chrono::DateTime::from_timestamp(secs, nanos).unwrap();
    t.format("%Y-%m-%d").to_string()
}

/// The second that an instant belongs to once leap seconds are counted out.
pub open spec fn plain_secs(secs: int, nanos: int) -> int {
    secs + nanos / 1_000_000_000
}

/// chrono's subtraction of whole days (`TimeDelta::try_days`,
/// `DateTime::checked_sub_signed`): the same time of day so many days before,
/// out of a leap second into the second after it; nothing where that is
/// before the first instant.
#[verifier::external_body]
fn sub_days(secs: i64, nanos: u32, days: i64) -> (r: Option<(i64, u32)>)
    requires
        is_instant(secs as int, nanos as int),
        days > 0,
    ensures
        r == (if plain_secs(secs as int, nanos as int) - days * 86_400 >= -8_334_601_228_800 {
            Some(
                (
                    (plain_secs(secs as int, nanos as int) - days * 86_400) as i64,
                    (nanos % 1_000_000_000) as u32,
                ),
            )
        } else {
            None
        }),
{
    let t = chrono::DateTime::from_timestamp(secs, nanos).unwrap();
    let before = t.checked_sub_signed(chrono::TimeDelta::try_days(days)?)?;
    Some((before.timestamp(), before.timestamp_subsec_nanos()))
}

/// An instant of UTC.
#[derive(Debug, Clone, Copy, PartialEq, Eq, Structural)]
pub struct Instant {
    secs: i64,
    nanos: u32,
}

impl Instant {
    #[verifier::type_invariant]
    spec fn is_valid(self) -> bool {
        is_instant(self.secs as int, self.nanos as int)
    }

    /// Seconds since 1970-01-01T00:00:00Z.
    pub closed spec fn seconds(self) -> int {
        self.secs as int
    }

    /// Nanoseconds of the second, above 999999999 in a leap second.
    pub closed spec fn nanoseconds(self) -> int {
        self.nanos as int
    }

    /// The instant with the given seconds since 1970-01-01T00:00:00Z and
    /// nanoseconds, if there is one.
    pub fn new(secs: i64, nanos: u32) -> (r: Option<Instant>)
        ensures
            r is Some <==> is_instant(secs as int, nanos as int),
            r matches Some(t) ==> t.seconds() == secs && t.nanoseconds() == nanos,
    {
        if secs < -8_334_601_228_800 || secs > 8_210_266_876_799 || nanos >= 2_000_000_000 {
            return None;
        }
        let second: i64 = (secs + 8_334_601_228_800) % 60;
        if nanos >= 1_000_000_000 && second != 59 {
            return None;
        }
        Some(Instant { secs, nanos })
    }

    /// The instant that an RFC 3339 text stands for.
    pub fn parse_rfc3339(s: &str) -> (r: Option<Instant>)
        ensures
            match r {
                Some(t) => rfc3339_value(s@) matches Some(p) && t.seconds() == p.0
                    && t.nanoseconds() == p.1,
                None => rfc3339_value(s@) is None,
            },
            r matches Some(t) ==> is_instant(t.seconds(), t.nanoseconds()),
    {
        match parse_from_rfc3339(s) {
            Some((secs, nanos)) => Some(Instant { secs, nanos }),
            None => None,
        }
    }

    /// The instant as `YYYY-MM-DDTHH:MM:SS.mmmZ`.
    pub fn rfc3339(&self) -> (s: String)
        ensures
            s@ == rfc3339_text(self.seconds(), self.nanoseconds()),
            has_plain_year(self.seconds()) ==> (rfc3339_value(s@) matches Some(p) && p.0
                == self.seconds() && p.1 == self.nanoseconds() / 1_000_000 * 1_000_000),
    {
        proof {
            use_type_invariant(self);
        }
        to_rfc3339(self.secs, self.nanos)
    }

    /// The date of the instant as `YYYY-MM-DD`.
    pub fn date(&self) -> (s: String)
        ensures
            s@ == date_text(date_of(day_of(self.seconds()))),
    {
        proof {
            use_type_invariant(self);
        }
        format_date(self.secs, self.nanos)
    }

    /// Milliseconds since 1970-01-01T00:00:00Z.
    pub fn timestamp_millis(&self) -> (ms: i64)
        ensures
            ms == millis_of(self.seconds(), self.nanoseconds()),
            -9_000_000_000_000_000 < ms < 9_000_000_000_000_000,
    {
        proof {
            use_type_invariant(self);
        }
        self.secs * 1000 + (self.nanos / 1_000_000) as i64
    }

    /// The same time of day so many days before, if that is an instant.
    pub fn minus_days(&self, days: i64) -> (r: Option<Instant>)
        requires
            days > 0,
        ensures
            match r {
                Some(t) => days_back(*self, days as int) >= -8_334_601_228_800 && t.seconds()
                    == days_back(*self, days as int) && t.nanoseconds() == self.nanoseconds()
                    % 1_000_000_000,
                None => days_back(*self, days as int) < -8_334_601_228_800,
            },
    {
        proof {
            use_type_invariant(self);
        }
        match sub_days(self.secs, self.nanos, days) {
            Some((secs, nanos)) => Some(Instant { secs, nanos }),
            None => None,
        }
    }
}

/// The second that stands so many days before an instant.
pub open spec fn days_back(t: Instant, days: int) -> int {
    plain_secs(t.seconds(), t.nanoseconds()) - days * 86_400
}

/// Milliseconds since 1970-01-01T00:00:00Z.
pub open spec fn millis_of(secs: int, nanos: int) -> int {
    secs * 1000 + nanos / 1_000_000
}

/// Whether one instant comes before another by at least a millisecond step.
pub open spec fn before_by_millis(s1: int, n1: int, s2: int, n2: int) -> bool {
    s1 < s2 || (s1 == s2 && n1 / 1_000_000 < n2 / 1_000_000)
}

spec fn pow10(width: nat) -> nat
    decreases width,
{
    if width == 0 {
        1
    } else {
        10 * pow10((width - 1) as nat)
    }
}

proof fn lemma_fixed_len(n: nat, width: nat)
    ensures
        fixed_decimal(n, width).len() == width,
    decreases width,
{
    if width > 0 {
        lemma_fixed_len(n / 10, (width - 1) as nat);
    }
}

/// Texts of equal length, each with a tail, are ordered by what comes first.
pub proof fn lemma_lex_append(p: Seq<char>, q: Seq<char>, r: Seq<char>, s: Seq<char>)
    requires
        p.len() == q.len(),
        lex_lt(p, q) || (p == q && lex_lt(r, s)),
    ensures
        lex_lt(p + r, q + s),
{
    if lex_lt(p, q) {
        lemma_lex_by_start(p, q, r, s);
    } else {
        lemma_lex_common_start(p, r, s);
    }
}

/// Numbers of the same width are ordered as their texts.
proof fn lemma_fixed_order(a: nat, b: nat, width: nat)
    requires
        a < b < pow10(width),
    ensures
        lex_lt(fixed_decimal(a, width), fixed_decimal(b, width)),
    decreases width,
{
    let w = (width - 1) as nat;
    let p = fixed_decimal(a / 10, w);
    let q = fixed_decimal(b / 10, w);
    let r = seq![crate::text::digit_char((a % 10) as int)];
    let s = seq![crate::text::digit_char((b % 10) as int)];
    lemma_fixed_len(a / 10, w);
    lemma_fixed_len(b / 10, w);
    assert(fixed_decimal(a, width) =~= p + r);
    assert(fixed_decimal(b, width) =~= q + s);
    if a / 10 < b / 10 {
        lemma_fixed_order(a / 10, b / 10, w);
    } else {
        assert(a / 10 == b / 10);
        assert(a % 10 < b % 10);
        assert(lex_lt(r, s));
    }
    lemma_lex_append(p, q, r, s);
}

proof fn lemma_date_text_len(d: Date)
    requires
        0 <= d.year <= 9999,
    ensures
        date_text(d).len() == 10,
{
    lemma_fixed_len(d.year as nat, 4);
    lemma_fixed_len(d.month as nat, 2);
    lemma_fixed_len(d.day as nat, 2);
}

/// Days in four-digit years are ordered as their texts.
proof fn lemma_date_text_order(a: Date, b: Date)
    requires
        a.valid(),
        b.valid(),
        0 <= a.year <= 9999,
        0 <= b.year <= 9999,
        a.before(b),
    ensures
        lex_lt(date_text(a), date_text(b)),
{
    assert(pow10(4) == 10_000 && pow10(2) == 100) by {
        reveal_with_fuel(pow10, 5);
    }
    let dash = seq!['-'];
    let (y1, y2) = (year_text(a.year), year_text(b.year));
    let (m1, m2) = (fixed_decimal(a.month as nat, 2), fixed_decimal(b.month as nat, 2));
    let (d1, d2) = (fixed_decimal(a.day as nat, 2), fixed_decimal(b.day as nat, 2));
    lemma_fixed_len(a.year as nat, 4);
    lemma_fixed_len(b.year as nat, 4);
    lemma_fixed_len(a.month as nat, 2);
    lemma_fixed_len(b.month as nat, 2);
    if a.year < b.year {
        lemma_fixed_order(a.year as nat, b.year as nat, 4);
        lemma_lex_append(y1, y2, dash, dash);
        lemma_lex_append(y1 + dash, y2 + dash, m1, m2);
        lemma_lex_append(y1 + dash + m1, y2 + dash + m2, dash, dash);
    } else if a.month < b.month {
        lemma_fixed_order(a.month as nat, b.month as nat, 2);
        lemma_lex_append(y1 + dash, y2 + dash, m1, m2);
        lemma_lex_append(y1 + dash + m1, y2 + dash + m2, dash, dash);
    } else {
        lemma_fixed_order(a.day as nat, b.day as nat, 2);
    }
    lemma_lex_append(y1 + dash + m1 + dash, y2 + dash + m2 + dash, d1, d2);
}

/// Hour, minute, second and millisecond of an instant.
struct Clock {
    hour: int,
    minute: int,
    second: int,
    milli: int,
}

impl Clock {
    spec fn of(secs: int, nanos: int) -> Clock {
        let s = secs % 86_400;
        Clock {
            hour: s / 3600,
            minute: s / 60 % 60,
            second: s % 60 + nanos / 1_000_000_000,
            milli: nanos % 1_000_000_000 / 1_000_000,
        }
    }

    spec fn in_range(self) -> bool {
        0 <= self.hour < 24 && 0 <= self.minute < 60 && 0 <= self.second <= 60 && 0 <= self.milli
            < 1000
    }

    spec fn before(self, other: Clock) -> bool {
        ||| self.hour < other.hour
        ||| self.hour == other.hour && self.minute < other.minute
        ||| self.hour == other.hour && self.minute == other.minute && self.second < other.second
        ||| self.hour == other.hour && self.minute == other.minute && self.second == other.second
            && self.milli < other.milli
    }

    spec fn text(self) -> Seq<char> {
        fixed_decimal(self.hour as nat, 2) + seq![':'] + fixed_decimal(self.minute as nat, 2)
            + seq![':'] + fixed_decimal(self.second as nat, 2) + seq!['.'] + fixed_decimal(
            self.milli as nat,
            3,
        )
    }
}

proof fn lemma_day_parts(secs: int)
    ensures
        secs == 86_400 * day_of(secs) + secs % 86_400,
        secs % 86_400 == 3600 * (secs % 86_400 / 3600) + 60 * (secs % 86_400 / 60 % 60) + secs
            % 86_400 % 60,
        secs % 60 == secs % 86_400 % 60,
        0 <= secs % 86_400 / 3600 < 24,
        0 <= secs % 86_400 / 60 % 60 < 60,
        0 <= secs % 60 < 60,
{
    let t = secs % 86_400;
    vstd::arithmetic::div_mod::lemma_div_denominator(t, 60, 60);
    vstd::arithmetic::div_mod::lemma_fundamental_div_mod(t, 60);
    vstd::arithmetic::div_mod::lemma_fundamental_div_mod(t / 60, 60);
    vstd::arithmetic::div_mod::lemma_fundamental_div_mod(secs, 86_400);
    vstd::arithmetic::div_mod::lemma_mod_mod(secs, 60, 1440);
}

proof fn lemma_nano_parts(nanos: int)
    requires
        0 <= nanos < 2_000_000_000,
    ensures
        nanos / 1_000_000 == nanos / 1_000_000_000 * 1000 + nanos % 1_000_000_000 / 1_000_000,
        0 <= nanos % 1_000_000_000 / 1_000_000 < 1000,
        0 <= nanos / 1_000_000_000 <= 1,
        nanos / 1_000_000_000 == 1 <==> nanos >= 1_000_000_000,
{
}

/// Clocks of one day run in the order of time.
proof fn lemma_clock_order(s1: int, n1: int, s2: int, n2: int)
    requires
        is_instant(s1, n1),
        is_instant(s2, n2),
        day_of(s1) == day_of(s2),
        before_by_millis(s1, n1, s2, n2),
    ensures
        Clock::of(s1, n1).in_range(),
        Clock::of(s2, n2).in_range(),
        Clock::of(s1, n1).before(Clock::of(s2, n2)),
{
    lemma_day_parts(s1);
    lemma_day_parts(s2);
    lemma_nano_parts(n1);
    lemma_nano_parts(n2);
    let (a, b) = (Clock::of(s1, n1), Clock::of(s2, n2));
    let (r1, r2) = (s1 % 60, s2 % 60);
    assert(s1 - s2 == 3600 * (a.hour - b.hour) + 60 * (a.minute - b.minute) + (r1 - r2));
    if s1 < s2 && a.hour == b.hour && a.minute == b.minute {
        assert(r1 < r2);
        assert(n1 < 1_000_000_000);
    }
}

proof fn lemma_clock_text_order(a: Clock, b: Clock)
    requires
        a.in_range(),
        b.in_range(),
        a.before(b),
    ensures
        lex_lt(a.text(), b.text()),
{
    assert(pow10(3) == 1000 && pow10(2) == 100) by {
        reveal_with_fuel(pow10, 4);
    }
    let colon = seq![':'];
    let dot = seq!['.'];
    let (h1, h2) = (fixed_decimal(a.hour as nat, 2), fixed_decimal(b.hour as nat, 2));
    let (m1, m2) = (fixed_decimal(a.minute as nat, 2), fixed_decimal(b.minute as nat, 2));
    let (s1, s2) = (fixed_decimal(a.second as nat, 2), fixed_decimal(b.second as nat, 2));
    let (f1, f2) = (fixed_decimal(a.milli as nat, 3), fixed_decimal(b.milli as nat, 3));
    lemma_fixed_len(a.hour as nat, 2);
    lemma_fixed_len(b.hour as nat, 2);
    lemma_fixed_len(a.minute as nat, 2);
    lemma_fixed_len(b.minute as nat, 2);
    lemma_fixed_len(a.second as nat, 2);
    lemma_fixed_len(b.second as nat, 2);
    if a.hour < b.hour {
        lemma_fixed_order(a.hour as nat, b.hour as nat, 2);
        lemma_lex_append(h1, h2, colon, colon);
    }
    if a.hour < b.hour || a.minute < b.minute {
        if a.hour == b.hour {
            lemma_fixed_order(a.minute as nat, b.minute as nat, 2);
        }
        lemma_lex_append(h1 + colon, h2 + colon, m1, m2);
        lemma_lex_append(h1 + colon + m1, h2 + colon + m2, colon, colon);
    }
    let (p1, p2) = (h1 + colon + m1 + colon, h2 + colon + m2 + colon);
    if lex_lt(p1, p2) || a.second < b.second {
        if !lex_lt(p1, p2) {
            lemma_fixed_order(a.second as nat, b.second as nat, 2);
        }
        lemma_lex_append(p1, p2, s1, s2);
        lemma_lex_append(p1 + s1, p2 + s2, dot, dot);
    }
    let (q1, q2) = (p1 + s1 + dot, p2 + s2 + dot);
    if !lex_lt(q1, q2) {
        lemma_fixed_order(a.milli as nat, b.milli as nat, 3);
    }
    lemma_lex_append(q1, q2, f1, f2);
}

/// Times of one day are ordered as their texts.
proof fn lemma_time_text_order(s1: int, n1: int, s2: int, n2: int)
    requires
        is_instant(s1, n1),
        is_instant(s2, n2),
        day_of(s1) == day_of(s2),
        before_by_millis(s1, n1, s2, n2),
    ensures
        lex_lt(time_text(s1, n1), time_text(s2, n2)),
{
    lemma_clock_order(s1, n1, s2, n2);
    lemma_clock_text_order(Clock::of(s1, n1), Clock::of(s2, n2));
}

proof fn lemma_rfc3339_grows(s1: int, n1: int, s2: int, n2: int)
    requires
        is_instant(s1, n1),
        is_instant(s2, n2),
        has_plain_year(s1),
        has_plain_year(s2),
        before_by_millis(s1, n1, s2, n2),
    ensures
        lex_lt(rfc3339_text(s1, n1), rfc3339_text(s2, n2)),
{
    let (d1, d2) = (date_of(day_of(s1)), date_of(day_of(s2)));
    law_date_of_number(day_of(s1));
    law_date_of_number(day_of(s2));
    lemma_date_text_len(d1);
    lemma_date_text_len(d2);
    let tee = seq!['T'];
    let zed = seq!['Z'];
    let (p1, p2) = (date_text(d1) + tee, date_text(d2) + tee);
    let (t1, t2) = (time_text(s1, n1), time_text(s2, n2));
    if day_of(s1) < day_of(s2) {
        law_days_are_numbered_in_order(d1, d2);
        lemma_date_text_order(d1, d2);
        lemma_lex_append(date_text(d1), date_text(d2), tee, tee);
    } else {
        assert(day_of(s1) == day_of(s2));
        lemma_time_text_order(s1, n1, s2, n2);
    }
    lemma_time_text_len(s1, n1);
    lemma_time_text_len(s2, n2);
    lemma_lex_append(p1, p2, t1, t2);
    lemma_lex_append(p1 + t1, p2 + t2, zed, zed);
}

proof fn lemma_time_text_len(secs: int, nanos: int)
    ensures
        time_text(secs, nanos).len() == 12,
{
    let s = secs % 86_400;
    lemma_fixed_len((s / 3600) as nat, 2);
    lemma_fixed_len((s / 60 % 60) as nat, 2);
    lemma_fixed_len((s % 60 + nanos / 1_000_000_000) as nat, 2);
    lemma_fixed_len((nanos % 1_000_000_000 / 1_000_000) as nat, 3);
}

/// The texts of instants in four-digit years sort as the instants do, to the
/// millisecond.
pub proof fn law_rfc3339_texts_sort_by_time(s1: int, n1: int, s2: int, n2: int)
    requires
        is_instant(s1, n1),
        is_instant(s2, n2),
        has_plain_year(s1),
        has_plain_year(s2),
    ensures
        lex_lt(rfc3339_text(s1, n1), rfc3339_text(s2, n2)) <==> before_by_millis(s1, n1, s2, n2),
        rfc3339_text(s1, n1) == rfc3339_text(s2, n2) <==> (s1 == s2 && n1 / 1_000_000 == n2
            / 1_000_000),
{
    law_text_order_is_total(rfc3339_text(s1, n1), rfc3339_text(s2, n2));
    if before_by_millis(s1, n1, s2, n2) {
        lemma_rfc3339_grows(s1, n1, s2, n2);
    } else if before_by_millis(s2, n2, s1, n1) {
        lemma_rfc3339_grows(s2, n2, s1, n1);
    } else {
        assert(n1 / 1_000_000 == n1 / 1_000_000_000 * 1000 + n1 % 1_000_000_000 / 1_000_000);
        assert(n2 / 1_000_000 == n2 / 1_000_000_000 * 1000 + n2 % 1_000_000_000 / 1_000_000);
    }
}

/// The date of an instant in a four-digit year is how its text starts.
pub proof fn law_date_starts_the_text(secs: int, nanos: int)
    requires
        has_plain_year(secs),
    ensures
        rfc3339_text(secs, nanos).take(10) == date_text(date_of(day_of(secs))),
{
    lemma_date_text_len(date_of(day_of(secs)));
    assert(rfc3339_text(secs, nanos).take(10) =~= date_text(date_of(day_of(secs))));
}

/// The dates of instants in four-digit years sort as their days do.
pub proof fn law_dates_sort_by_day(s1: int, s2: int)
    requires
        has_plain_year(s1),
        has_plain_year(s2),
    ensures
        lex_lt(date_text(date_of(day_of(s1))), date_text(date_of(day_of(s2)))) <==> day_of(s1)
            < day_of(s2),
{
    let (d1, d2) = (date_of(day_of(s1)), date_of(day_of(s2)));
    law_date_of_number(day_of(s1));
    law_date_of_number(day_of(s2));
    law_days_are_numbered_in_order(d1, d2);
    law_days_are_numbered_in_order(d2, d1);
    law_text_order_is_total(date_text(d1), date_text(d2));
    if d1.before(d2) {
        lemma_date_text_order(d1, d2);
    } else if d2.before(d1) {
        lemma_date_text_order(d2, d1);
    }
}

/// A bare date bounds the texts of instants in four-digit years: those of the
/// days before it sort before it, those of its own and later days do not.
pub proof fn law_bare_dates_bound_the_texts(secs: int, nanos: int, day: int)
    requires
        has_plain_year(secs),
        has_plain_year(day),
    ensures
        lex_lt(rfc3339_text(secs, nanos), date_text(date_of(day_of(day)))) <==> day_of(secs)
            < day_of(day),
{
    let text = rfc3339_text(secs, nanos);
    let own = date_text(date_of(day_of(secs)));
    let other = date_text(date_of(day_of(day)));
    let rest = text.skip(10);
    let none = Seq::<char>::empty();
    law_date_starts_the_text(secs, nanos);
    law_dates_sort_by_day(secs, day);
    law_dates_sort_by_day(day, secs);
    lemma_date_text_len(date_of(day_of(secs)));
    lemma_date_text_len(date_of(day_of(day)));
    assert(text =~= own + rest);
    assert(other =~= other + none);
    law_text_order_is_total(own, other);
    law_text_order_is_total(text, other);
    if lex_lt(own, other) {
        lemma_lex_by_start(own, other, rest, none);
    } else if lex_lt(other, own) {
        lemma_lex_by_start(other, own, none, rest);
    } else {
        lemma_lex_common_start(own, rest, none);
    }
}

/// The instants are those of the years that can be told, with nanoseconds up
/// to the end of a second or of a leap second at the end of a minute.
pub proof fn law_which_instants_there_are(secs: int, nanos: int)
    ensures
        is_instant(secs, nanos) <==> -8_334_601_228_800 <= secs <= 8_210_266_876_799 && 0 <= nanos
            && (nanos < 1_000_000_000 || (nanos < 2_000_000_000 && secs % 60 == 59)),
{
}

/// Days and milliseconds are counted on: a day later is the next day, a second
/// later is a thousand milliseconds more, and a million nanoseconds are one.
pub proof fn law_days_and_milliseconds_count_on(secs: int, nanos: int, n: int)
    ensures
        day_of(secs + n * 86_400) == day_of(secs) + n,
        0 <= secs < 86_400 ==> day_of(secs) == 0,
        millis_of(secs + n, nanos) == millis_of(secs, nanos) + n * 1000,
        millis_of(secs, nanos + n * 1_000_000) == millis_of(secs, nanos) + n,
        0 <= nanos < 1_000_000 ==> millis_of(0, nanos) == 0,
{
}

/// Going back a day more goes back 86400 seconds more, from the second that
/// the instant belongs to.
pub proof fn law_days_back_count_on(t: Instant, days: int)
    ensures
        days_back(t, days + 1) == days_back(t, days) - 86_400,
        0 <= t.nanoseconds() < 1_000_000_000 ==> days_back(t, 0) == t.seconds(),
        1_000_000_000 <= t.nanoseconds() < 2_000_000_000 ==> days_back(t, 0) == t.seconds() + 1,
{
}

/// An instant tells the seconds and nanoseconds that it was made with as
/// milliseconds and as a date; there is one exactly if they are in range.
pub proof fn law_instants_tell_their_time(
    secs: i64,
    nanos: u32,
    t: Option<Instant>,
    millis: i64,
    date: String,
    text: String,
)
    requires
        call_ensures(Instant::new, (secs, nanos), t),
        t matches Some(i) && call_ensures(Instant::timestamp_millis, (&i,), millis) && call_ensures(
            Instant::date,
            (&i,),
            date,
        ) && call_ensures(Instant::rfc3339, (&i,), text),
    ensures
        -8_334_601_228_800 <= secs <= 8_210_266_876_799,
        nanos < 2_000_000_000,
        millis == secs * 1000 + nanos as int / 1_000_000,
        date@ == date_text(date_of(secs as int / 86_400)),
        text@ == rfc3339_text(secs as int, nanos as int),
        has_plain_year(secs as int) ==> (rfc3339_value(text@) matches Some(p) && p.0 == secs && p.1
            == nanos as int / 1_000_000 * 1_000_000),
{
}

} // verus!
