//! Text as sequences of characters: trimming, splitting, ordering, and
//! decimal numbers.
use vstd::prelude::*;

verus! {

/// `String::push` adds one character at the end.
pub assume_specification[ String::push ](s: &mut String, c: char)
    ensures
        final(s)@ == old(s)@.push(c),
;

/// The result of `str::to_lowercase`, the Unicode lower-case mapping.
pub uninterp spec fn lowercase(s: Seq<char>) -> Seq<char>;

/// The lower-case form of an ASCII letter; any other character is left as it
/// is.
pub open spec fn ascii_lower(c: char) -> char {
    if 'A' <= c && c <= 'Z' {
        ((c as int) + 32) as char
    } else {
        c
    }
}

/// Text with every ASCII letter in lower case.
pub open spec fn ascii_lowercase(s: Seq<char>) -> Seq<char> {
    Seq::new(s.len(), |i: int| ascii_lower(s[i]))
}

/// Whether every character is in the ASCII range.
pub open spec fn all_ascii(s: Seq<char>) -> bool {
    forall|i: int| 0 <= i < s.len() ==> (#[trigger] s[i] as int) < 128
}

/// `str::to_lowercase`. The mapping as a whole is Unicode's and stays a name;
/// on text that is all ASCII it turns `A`..`Z` into `a`..`z` and leaves every
/// other character as it is.
#[verifier::external_body]
pub(crate) fn to_lowercase(s: &str) -> (r: String)
    ensures
        r@ == lowercase(s@),
        all_ascii(s@) ==> r@ == ascii_lowercase(s@),
{
    s.to_lowercase()
}

/// The texts that a sequence of strings holds.
pub open spec fn texts(v: Seq<String>) -> Seq<Seq<char>> {
    Seq::new(v.len(), |i: int| v[i]@)
}

/// The text of an optional string.
pub open spec fn opt_text(s: Option<String>) -> Option<Seq<char>> {
    match s {
        Some(t) => Some(t@),
        None => None,
    }
}

/// An optional text; empty where there is none.
pub open spec fn text_or_empty(s: Option<Seq<char>>) -> Seq<char> {
    match s {
        Some(t) => t,
        None => Seq::empty(),
    }
}

/// The characters of a string, one by one.
pub fn chars_of(s: &str) -> (v: Vec<char>)
    ensures
        v@ == s@,
{
    let mut v: Vec<char> = Vec::new();
    for c in it: s.chars()
        invariant
            it.seq() == s@,
            v@ == s@.take(it.index() as int),
    {
        v.push(c);
    }
    v
}

/// The string that holds the given characters.
pub fn string_of(v: &[char]) -> (s: String)
    ensures
        s@ == v@,
{
    let mut s = String::new();
    let mut i: usize = 0;
    while i < v.len()
        invariant
            i <= v.len(),
            s@ == v@.take(i as int),
        decreases v.len() - i,
    {
        s.push(v[i]);
        i += 1;
    }
    s
}

/// Whether two strings hold the same text.
pub fn same_text(a: &str, b: &str) -> (r: bool)
    ensures
        r == (a@ == b@),
{
    let x = chars_of(a);
    let y = chars_of(b);
    if x.len() != y.len() {
        return false;
    }
    let mut i: usize = 0;
    while i < x.len()
        invariant
            i <= x.len(),
            x.len() == y.len(),
            x@ == a@,
            y@ == b@,
            forall|j: int| 0 <= j < i ==> x@[j] == y@[j],
        decreases x.len() - i,
    {
        if x[i] != y[i] {
            return false;
        }
        i += 1;
    }
    proof {
        assert(x@ =~= y@);
    }
    true
}

/// Whether one of the strings holds the given text.
pub fn contains_text(v: &[String], s: &str) -> (r: bool)
    ensures
        r == texts(v@).contains(s@),
{
    let mut i: usize = 0;
    while i < v.len()
        invariant
            i <= v.len(),
            forall|j: int| 0 <= j < i ==> texts(v@)[j] != s@,
        decreases v.len() - i,
    {
        if same_text(v[i].as_str(), s) {
            proof {
                assert(texts(v@)[i as int] == s@);
            }
            return true;
        }
        i += 1;
    }
    false
}

/// A copy of a string.
pub fn copy_text(s: &str) -> (r: String)
    ensures
        r@ == s@,
{
    s.to_owned()
}

/// Whether the text starts with a prefix.
pub open spec fn has_prefix(s: Seq<char>, p: Seq<char>) -> bool {
    p.len() <= s.len() && s.take(p.len() as int) == p
}

/// Whether the text ends with a suffix.
pub open spec fn has_suffix(s: Seq<char>, p: Seq<char>) -> bool {
    p.len() <= s.len() && s.skip(s.len() - p.len()) == p
}

/// What follows the prefix, or `None` where the text does not start with it.
pub open spec fn after_prefix(s: Seq<char>, p: Seq<char>) -> Option<Seq<char>> {
    if has_prefix(s, p) {
        Some(s.skip(p.len() as int))
    } else {
        None
    }
}

/// What follows the prefix, or `None` where the text does not start with it.
pub fn strip_prefix(s: &str, p: &str) -> (r: Option<String>)
    ensures
        opt_text(r) == after_prefix(s@, p@),
{
    let x = chars_of(s);
    let y = chars_of(p);
    if y.len() > x.len() {
        return None;
    }
    let mut i: usize = 0;
    while i < y.len()
        invariant
            i <= y.len() <= x.len(),
            x@ == s@,
            y@ == p@,
            forall|j: int| 0 <= j < i ==> x@[j] == y@[j],
        decreases y.len() - i,
    {
        if x[i] != y[i] {
            proof {
                assert(s@.take(p@.len() as int)[i as int] != p@[i as int]);
            }
            return None;
        }
        i += 1;
    }
    proof {
        assert(s@.take(p@.len() as int) =~= p@);
    }
    let mut rest = String::new();
    while i < x.len()
        invariant
            y.len() <= i <= x.len(),
            x@ == s@,
            y@ == p@,
            rest@ == s@.subrange(p@.len() as int, i as int),
        decreases x.len() - i,
    {
        rest.push(x[i]);
        i += 1;
    }
    Some(rest)
}

/// Whether the text ends with a suffix.
pub fn ends_with(s: &str, p: &str) -> (r: bool)
    ensures
        r == has_suffix(s@, p@),
{
    let x = chars_of(s);
    let y = chars_of(p);
    if y.len() > x.len() {
        return false;
    }
    let from: usize = x.len() - y.len();
    let mut i: usize = 0;
    while i < y.len()
        invariant
            i <= y.len() <= x.len(),
            from == x.len() - y.len(),
            x@ == s@,
            y@ == p@,
            forall|j: int| 0 <= j < i ==> x@[from + j] == y@[j],
        decreases y.len() - i,
    {
        if x[from + i] != y[i] {
            proof {
                assert(s@.skip(from as int)[i as int] != p@[i as int]);
            }
            return false;
        }
        i += 1;
    }
    proof {
        assert(s@.skip(from as int) =~= p@);
    }
    true
}

/// Whether a character has the Unicode `White_Space` property.
pub open spec fn is_space(c: char) -> bool {
    let n = c as int;
    ||| 0x09 <= n <= 0x0d
    ||| n == 0x20
    ||| n == 0x85
    ||| n == 0xa0
    ||| n == 0x1680
    ||| 0x2000 <= n <= 0x200a
    ||| n == 0x2028
    ||| n == 0x2029
    ||| n == 0x202f
    ||| n == 0x205f
    ||| n == 0x3000
}

/// Whether a character has the Unicode `White_Space` property.
pub fn is_whitespace(c: char) -> (r: bool)
    ensures
        r == is_space(c),
{
    let n: u32 = c as u32;
    (0x09 <= n && n <= 0x0d) || n == 0x20 || n == 0x85 || n == 0xa0 || n == 0x1680 || (0x2000 <= n
        && n <= 0x200a) || n == 0x2028 || n == 0x2029 || n == 0x202f || n == 0x205f || n == 0x3000
}

/// The text without the white space it starts with.
pub open spec fn trim_front(s: Seq<char>) -> Seq<char>
    decreases s.len(),
{
    if s.len() > 0 && is_space(s[0]) {
        trim_front(s.drop_first())
    } else {
        s
    }
}

/// The text without the white space it ends with.
pub open spec fn trim_back(s: Seq<char>) -> Seq<char>
    decreases s.len(),
{
    if s.len() > 0 && is_space(s.last()) {
        trim_back(s.drop_last())
    } else {
        s
    }
}

/// The text without white space around it.
pub open spec fn trimmed(s: Seq<char>) -> Seq<char> {
    trim_back(trim_front(s))
}

/// The text without white space around it.
pub fn trim(s: &str) -> (r: String)
    ensures
        r@ == trimmed(s@),
{
    let x = chars_of(s);
    let mut a: usize = 0;
    proof {
        assert(s@.skip(0) =~= s@);
    }
    while a < x.len() && is_whitespace(x[a])
        invariant
            a <= x.len(),
            x@ == s@,
            trim_front(s@) == trim_front(s@.skip(a as int)),
        decreases x.len() - a,
    {
        proof {
            assert(s@.skip(a as int).drop_first() =~= s@.skip(a + 1));
        }
        a += 1;
    }
    let mut b: usize = x.len();
    proof {
        assert(s@.skip(a as int) =~= s@.subrange(a as int, b as int));
    }
    while a < b && is_whitespace(x[b - 1])
        invariant
            a <= b <= x.len(),
            x@ == s@,
            trimmed(s@) == trim_back(s@.subrange(a as int, b as int)),
        decreases b,
    {
        proof {
            assert(s@.subrange(a as int, b as int).drop_last() =~= s@.subrange(a as int, b - 1));
        }
        b -= 1;
    }
    let mut r = String::new();
    let mut i: usize = a;
    while i < b
        invariant
            a <= i <= b <= x.len(),
            x@ == s@,
            r@ == s@.subrange(a as int, i as int),
        decreases b - i,
    {
        r.push(x[i]);
        i += 1;
    }
    r
}

/// The pieces of the text between separators, empty ones included.
pub open spec fn split_on(s: Seq<char>, sep: char) -> Seq<Seq<char>>
    decreases s.len(),
{
    if s.len() == 0 {
        seq![Seq::empty()]
    } else {
        let before = split_on(s.drop_last(), sep);
        if s.last() == sep {
            before.push(Seq::empty())
        } else {
            before.drop_last().push(before.last().push(s.last()))
        }
    }
}

/// The pieces of the text between separators, empty ones included.
pub fn split(s: &str, sep: char) -> (r: Vec<String>)
    ensures
        texts(r@) == split_on(s@, sep),
{
    let x = chars_of(s);
    let mut done: Vec<String> = Vec::new();
    let mut piece = String::new();
    let mut i: usize = 0;
    proof {
        assert(s@.take(0) =~= Seq::<char>::empty());
        assert(texts(done@).push(piece@) =~= split_on(s@.take(0), sep));
    }
    while i < x.len()
        invariant
            i <= x.len(),
            x@ == s@,
            texts(done@).push(piece@) == split_on(s@.take(i as int), sep),
        decreases x.len() - i,
    {
        let ghost pieces = texts(done@).push(piece@);
        proof {
            assert(s@.take(i + 1).drop_last() =~= s@.take(i as int));
            assert(pieces.drop_last() =~= texts(done@));
        }
        if x[i] == sep {
            done.push(piece);
            piece = String::new();
            proof {
                assert(texts(done@) =~= pieces);
            }
        } else {
            piece.push(x[i]);
        }
        i += 1;
    }
    proof {
        assert(s@.take(i as int) =~= s@);
    }
    let ghost pieces = texts(done@).push(piece@);
    done.push(piece);
    proof {
        assert(texts(done@) =~= pieces);
    }
    done
}

/// The position of the first occurrence of a character; the length of the
/// text where there is none.
pub open spec fn first_at(s: Seq<char>, c: char) -> int
    decreases s.len(),
{
    if s.len() == 0 || s[0] == c {
        0
    } else {
        1 + first_at(s.drop_first(), c)
    }
}

/// What stands before and after the first occurrence of a character.
pub open spec fn cut_at(s: Seq<char>, c: char) -> Option<(Seq<char>, Seq<char>)> {
    let i = first_at(s, c);
    if i < s.len() {
        Some((s.take(i), s.skip(i + 1)))
    } else {
        None
    }
}

/// What stands before and after the first occurrence of a character.
pub fn split_once(s: &str, c: char) -> (r: Option<(String, String)>)
    ensures
        r matches Some(p) ==> cut_at(s@, c) == Some((p.0@, p.1@)),
        r is None ==> cut_at(s@, c) is None,
{
    let x = chars_of(s);
    let mut i: usize = 0;
    let mut before = String::new();
    proof {
        assert(s@.skip(0) =~= s@);
    }
    while i < x.len() && x[i] != c
        invariant
            i <= x.len(),
            x@ == s@,
            before@ == s@.take(i as int),
            first_at(s@, c) == i + first_at(s@.skip(i as int), c),
        decreases x.len() - i,
    {
        proof {
            assert(s@.skip(i as int).drop_first() =~= s@.skip(i + 1));
        }
        before.push(x[i]);
        i += 1;
    }
    if i == x.len() {
        return None;
    }
    let mut after = String::new();
    let mut j: usize = i + 1;
    while j < x.len()
        invariant
            i < j <= x.len(),
            x@ == s@,
            after@ == s@.subrange(i + 1, j as int),
        decreases x.len() - j,
    {
        after.push(x[j]);
        j += 1;
    }
    Some((before, after))
}

/// Whether one text stands before another in the order of their code points,
/// which is the order of their UTF-8 bytes.
pub open spec fn lex_lt(a: Seq<char>, b: Seq<char>) -> bool
    decreases a.len(),
{
    if b.len() == 0 {
        false
    } else if a.len() == 0 {
        true
    } else if a[0] != b[0] {
        (a[0] as int) < (b[0] as int)
    } else {
        lex_lt(a.drop_first(), b.drop_first())
    }
}

/// Whether one text stands before another in the order of their code points.
pub fn text_before(a: &str, b: &str) -> (r: bool)
    ensures
        r == lex_lt(a@, b@),
{
    let x = chars_of(a);
    let y = chars_of(b);
    let mut i: usize = 0;
    proof {
        assert(a@.skip(0) =~= a@);
        assert(b@.skip(0) =~= b@);
    }
    while i < x.len() && i < y.len() && x[i] == y[i]
        invariant
            i <= x.len(),
            i <= y.len(),
            x@ == a@,
            y@ == b@,
            lex_lt(a@, b@) == lex_lt(a@.skip(i as int), b@.skip(i as int)),
        decreases x.len() - i,
    {
        proof {
            assert(a@.skip(i as int).drop_first() =~= a@.skip(i + 1));
            assert(b@.skip(i as int).drop_first() =~= b@.skip(i + 1));
        }
        i += 1;
    }
    if i == y.len() {
        false
    } else if i == x.len() {
        true
    } else {
        let p: char = x[i];
        let q: char = y[i];
        p < q
    }
}

/// The order of texts is a strict total order: of two texts exactly one
/// stands before the other, unless they are equal.
pub proof fn law_text_order_is_total(a: Seq<char>, b: Seq<char>)
    ensures
        lex_lt(a, b) || lex_lt(b, a) || a == b,
        !(lex_lt(a, b) && lex_lt(b, a)),
        !lex_lt(a, a),
    decreases a.len(),
{
    if a.len() > 0 && b.len() > 0 && a[0] == b[0] {
        law_text_order_is_total(a.drop_first(), b.drop_first());
        if a.drop_first() == b.drop_first() {
            assert(a =~= seq![a[0]] + a.drop_first());
            assert(b =~= seq![b[0]] + b.drop_first());
        }
    } else if a.len() == 0 && b.len() == 0 {
        assert(a =~= b);
    }
    if a.len() > 0 {
        law_text_order_is_total(a.drop_first(), a.drop_first());
    }
}

/// The order of texts is transitive.
pub proof fn law_text_order_is_transitive(a: Seq<char>, b: Seq<char>, c: Seq<char>)
    requires
        lex_lt(a, b),
        lex_lt(b, c),
    ensures
        lex_lt(a, c),
    decreases a.len(),
{
    if a.len() > 0 && b.len() > 0 && c.len() > 0 && a[0] == b[0] && b[0] == c[0] {
        law_text_order_is_transitive(a.drop_first(), b.drop_first(), c.drop_first());
    }
}

/// Texts with a common start are ordered by what follows it.
pub proof fn lemma_lex_common_start(p: Seq<char>, a: Seq<char>, b: Seq<char>)
    ensures
        lex_lt(p + a, p + b) == lex_lt(a, b),
    decreases p.len(),
{
    if p.len() == 0 {
        assert(p + a =~= a);
        assert(p + b =~= b);
    } else {
        assert((p + a).drop_first() =~= p.drop_first() + a);
        assert((p + b).drop_first() =~= p.drop_first() + b);
        lemma_lex_common_start(p.drop_first(), a, b);
    }
}

/// Texts that differ within starts of equal length are ordered by those.
pub proof fn lemma_lex_by_start(p: Seq<char>, q: Seq<char>, a: Seq<char>, b: Seq<char>)
    requires
        p.len() == q.len(),
        lex_lt(p, q),
    ensures
        lex_lt(p + a, q + b),
    decreases p.len(),
{
    assert((p + a)[0] == p[0]);
    assert((q + b)[0] == q[0]);
    if p[0] == q[0] {
        assert((p + a).drop_first() =~= p.drop_first() + a);
        assert((q + b).drop_first() =~= q.drop_first() + b);
        lemma_lex_by_start(p.drop_first(), q.drop_first(), a, b);
    }
}

/// The character of a decimal digit.
pub open spec fn digit_char(d: int) -> char {
    (d + 48) as char
}

/// The value of a decimal digit.
pub open spec fn digit_value(c: char) -> Option<int> {
    if '0' <= c && c <= '9' {
        Some((c as int) - 48)
    } else {
        None
    }
}

/// A number in decimal, with as many digits as it needs.
pub open spec fn decimal(n: nat) -> Seq<char>
    decreases n,
{
    if n < 10 {
        seq![digit_char(n as int)]
    } else {
        decimal(n / 10).push(digit_char((n % 10) as int))
    }
}

/// A number in decimal, with a minus sign where it is negative.
pub open spec fn signed_decimal(n: int) -> Seq<char> {
    if n < 0 {
        seq!['-'] + decimal((-n) as nat)
    } else {
        decimal(n as nat)
    }
}

/// The last `width` decimal digits of a number, with zeros in front.
pub open spec fn fixed_decimal(n: nat, width: nat) -> Seq<char>
    decreases width,
{
    if width == 0 {
        Seq::empty()
    } else {
        fixed_decimal(n / 10, (width - 1) as nat).push(digit_char((n % 10) as int))
    }
}

fn digit_to_char(d: u64) -> (c: char)
    requires
        d < 10,
    ensures
        c == digit_char(d as int),
{
    let b: u8 = 48 + d as u8;
    b as char
}

fn push_decimal(out: &mut String, n: u64)
    ensures
        final(out)@ == old(out)@ + decimal(n as nat),
    decreases n,
{
    if n >= 10 {
        push_decimal(out, n / 10);
    }
    out.push(digit_to_char(n % 10));
    proof {
        if n >= 10 {
            assert(decimal(n as nat) == decimal(n as nat / 10).push(
                digit_char((n as nat % 10) as int),
            ));
        }
        assert(out@ =~= old(out)@ + decimal(n as nat));
    }
}

/// A number in decimal.
pub fn u64_text(n: u64) -> (s: String)
    ensures
        s@ == decimal(n as nat),
{
    let mut s = String::new();
    push_decimal(&mut s, n);
    s
}

/// Why a text is not a number of the wanted type.
#[derive(Debug, Clone, Copy, PartialEq, Eq, Structural)]
pub enum IntError {
    /// There is no character at all.
    Empty,
    /// A character is no decimal digit, or a sign stands alone.
    InvalidDigit,
    /// The number is above the type's largest.
    PosOverflow,
    /// The number is below the type's smallest.
    NegOverflow,
}

impl IntError {
    /// What the error says.
    pub open spec fn text(self) -> Seq<char> {
        match self {
            IntError::Empty => "cannot parse integer from empty string"@,
            IntError::InvalidDigit => "invalid digit found in string"@,
            IntError::PosOverflow => "number too large to fit in target type"@,
            IntError::NegOverflow => "number too small to fit in target type"@,
        }
    }

    /// What the error says.
    pub fn message(&self) -> (s: String)
        ensures
            s@ == self.text(),
    {
        match self {
            IntError::Empty => copy_text("cannot parse integer from empty string"),
            IntError::InvalidDigit => copy_text("invalid digit found in string"),
            IntError::PosOverflow => copy_text("number too large to fit in target type"),
            IntError::NegOverflow => copy_text("number too small to fit in target type"),
        }
    }
}

/// The number that digits write, read from the left, up to the first
/// character that is no digit or takes the number out of its range.
pub open spec fn digits_value(s: Seq<char>, neg: bool, min: int, max: int) -> Result<int, IntError>
    decreases s.len(),
{
    if s.len() == 0 {
        Ok(0)
    } else {
        match digits_value(s.drop_last(), neg, min, max) {
            Err(e) => Err(e),
            Ok(v) => match digit_value(s.last()) {
                None => Err(IntError::InvalidDigit),
                Some(d) => {
                    let n = if neg {
                        v * 10 - d
                    } else {
                        v * 10 + d
                    };
                    if n > max {
                        Err(IntError::PosOverflow)
                    } else if n < min {
                        Err(IntError::NegOverflow)
                    } else {
                        Ok(n)
                    }
                },
            },
        }
    }
}

/// The number that a text writes in decimal: an optional plus sign (or minus
/// sign, where the type has negative numbers), then one or more digits.
pub open spec fn int_value(s: Seq<char>, min: int, max: int) -> Result<int, IntError> {
    if s.len() == 0 {
        Err(IntError::Empty)
    } else if s.len() == 1 && (s[0] == '+' || s[0] == '-') {
        Err(IntError::InvalidDigit)
    } else if s[0] == '+' {
        digits_value(s.drop_first(), false, min, max)
    } else if s[0] == '-' && min < 0 {
        digits_value(s.drop_first(), true, min, max)
    } else {
        digits_value(s, false, min, max)
    }
}

/// Reads a number in decimal.
pub fn parse_int(s: &str, min: i128, max: i128) -> (r: Result<i128, IntError>)
    requires
        i64::MIN <= min <= 0,
        0 <= max <= u64::MAX,
    ensures
        r matches Ok(n) ==> int_value(s@, min as int, max as int) == Ok::<int, IntError>(n as int)
            && min <= n <= max,
        r matches Err(e) ==> int_value(s@, min as int, max as int) == Err::<int, IntError>(e),
{
    let x = chars_of(s);
    if x.len() == 0 {
        return Err(IntError::Empty);
    }
    if x.len() == 1 && (x[0] == '+' || x[0] == '-') {
        return Err(IntError::InvalidDigit);
    }
    let neg: bool = x[0] == '-' && min < 0;
    let from: usize = if neg || x[0] == '+' {
        1
    } else {
        0
    };
    let ghost digits = s@.skip(from as int);
    proof {
        assert(s@.skip(0) =~= s@);
        assert(digits.take(0) =~= Seq::<char>::empty());
    }
    let mut v: i128 = 0;
    let mut i: usize = from;
    while i < x.len()
        invariant
            from <= i <= x.len(),
            x@ == s@,
            digits == s@.skip(from as int),
            i64::MIN <= min <= 0,
            0 <= max <= u64::MAX,
            min <= v <= max,
            digits_value(digits.take(i - from), neg, min as int, max as int) == Ok::<int, IntError>(
                v as int,
            ),
            int_value(s@, min as int, max as int) == digits_value(
                digits,
                neg,
                min as int,
                max as int,
            ),
        decreases x.len() - i,
    {
        let c: char = x[i];
        proof {
            assert(digits.take(i + 1 - from).drop_last() =~= digits.take(i - from));
            assert(digits.take(i + 1 - from).last() == c);
        }
        if c < '0' || c > '9' {
            proof {
                lemma_digits_error(digits, i + 1 - from, neg, min as int, max as int);
            }
            return Err(IntError::InvalidDigit);
        }
        let d: i128 = (c as u32 - 48) as i128;
        let n: i128 = if neg {
            v * 10 - d
        } else {
            v * 10 + d
        };
        if n > max {
            proof {
                lemma_digits_error(digits, i + 1 - from, neg, min as int, max as int);
            }
            return Err(IntError::PosOverflow);
        }
        if n < min {
            proof {
                lemma_digits_error(digits, i + 1 - from, neg, min as int, max as int);
            }
            return Err(IntError::NegOverflow);
        }
        v = n;
        i += 1;
    }
    proof {
        assert(digits.take(i - from) =~= digits);
    }
    Ok(v)
}

/// The first error stands, whatever follows it.
proof fn lemma_digits_error(s: Seq<char>, k: int, neg: bool, min: int, max: int)
    requires
        0 <= k <= s.len(),
        digits_value(s.take(k), neg, min, max) is Err,
    ensures
        digits_value(s, neg, min, max) == digits_value(s.take(k), neg, min, max),
    decreases s.len(),
{
    if k == s.len() {
        assert(s.take(k) =~= s);
    } else {
        assert(s.drop_last().take(k) =~= s.take(k));
        lemma_digits_error(s.drop_last(), k, neg, min, max);
    }
}

/// Reading back the decimal form of a number gives the number, in every
/// range that holds it.
pub proof fn law_decimal_reads_back(n: nat, min: int, max: int)
    requires
        min <= 0,
        n <= max,
    ensures
        int_value(decimal(n), min, max) == Ok::<int, IntError>(n as int),
{
    lemma_decimal_digits(n, min, max);
    lemma_decimal_start(n);
}

proof fn lemma_decimal_digits(n: nat, min: int, max: int)
    requires
        min <= 0,
        n <= max,
    ensures
        digits_value(decimal(n), false, min, max) == Ok::<int, IntError>(n as int),
    decreases n,
{
    reveal_with_fuel(digits_value, 2);
    if n < 10 {
        assert(decimal(n).drop_last() =~= Seq::<char>::empty());
    } else {
        lemma_decimal_digits(n / 10, min, max);
        assert(decimal(n).drop_last() =~= decimal(n / 10));
    }
}

/// A number in decimal starts with a digit.
pub proof fn lemma_decimal_start(n: nat)
    ensures
        decimal(n).len() > 0,
        '0' <= decimal(n)[0] <= '9',
    decreases n,
{
    if n >= 10 {
        lemma_decimal_start(n / 10);
    }
}

/// What follows a prefix is what was put behind it, whatever that is; and a
/// text that does not start with the prefix has nothing that follows it.
pub proof fn law_prefix_comes_off(s: Seq<char>, p: Seq<char>, x: Seq<char>)
    ensures
        after_prefix(p + x, p) == Some(x),
        after_prefix(s, p) == Some(x) ==> s == p + x,
        after_prefix(s, p) is None ==> s != p + x,
        has_prefix(p + x, p),
        has_prefix(s, p) ==> s == p + s.skip(p.len() as int),
{
    assert((p + x).take(p.len() as int) =~= p);
    assert((p + x).skip(p.len() as int) =~= x);
    if has_prefix(s, p) {
        assert(s =~= p + s.skip(p.len() as int));
    }
}

/// A text ends with a suffix exactly if it is some text with the suffix behind
/// it.
pub proof fn law_suffix_is_at_the_end(s: Seq<char>, p: Seq<char>, x: Seq<char>)
    ensures
        has_suffix(x + p, p),
        has_suffix(s, p) ==> s == s.take(s.len() - p.len()) + p,
{
    assert((x + p).skip((x + p).len() - p.len()) =~= p);
    if has_suffix(s, p) {
        assert(s =~= s.take(s.len() - p.len()) + p);
    }
}

/// Whether a text is nothing but white space.
pub open spec fn is_blank(s: Seq<char>) -> bool {
    forall|i: int| 0 <= i < s.len() ==> is_space(#[trigger] s[i])
}

proof fn lemma_trim_front_cuts(s: Seq<char>) -> (a: Seq<char>)
    ensures
        is_blank(a),
        s == a + trim_front(s),
        trim_front(s).len() > 0 ==> !is_space(trim_front(s)[0]),
    decreases s.len(),
{
    if s.len() > 0 && is_space(s[0]) {
        let b = lemma_trim_front_cuts(s.drop_first());
        let a = seq![s[0]] + b;
        assert forall|i: int| 0 <= i < a.len() implies is_space(#[trigger] a[i]) by {
            if i > 0 {
                assert(a[i] == b[i - 1]);
            }
        }
        assert(s.drop_first() == b + trim_front(s));
        assert(s =~= seq![s[0]] + s.drop_first());
        assert(s =~= a + trim_front(s));
        a
    } else {
        assert(s =~= Seq::<char>::empty() + s);
        Seq::empty()
    }
}

proof fn lemma_trim_back_cuts(s: Seq<char>) -> (b: Seq<char>)
    ensures
        is_blank(b),
        s == trim_back(s) + b,
        trim_back(s).len() > 0 ==> !is_space(trim_back(s).last()) && trim_back(s)[0] == s[0],
    decreases s.len(),
{
    if s.len() > 0 && is_space(s.last()) {
        let c = lemma_trim_back_cuts(s.drop_last());
        let b = c.push(s.last());
        assert forall|i: int| 0 <= i < b.len() implies is_space(#[trigger] b[i]) by {
            if i < c.len() {
                assert(b[i] == c[i]);
            }
        }
        assert(s.drop_last() == trim_back(s) + c);
        assert(s =~= s.drop_last().push(s.last()));
        assert(s =~= trim_back(s) + b);
        b
    } else {
        assert(s =~= s + Seq::<char>::empty());
        Seq::empty()
    }
}

/// Trimming cuts white space off both ends and nothing else: what is left
/// neither starts nor ends with it.
pub proof fn law_trimming_cuts_white_space_only(s: Seq<char>) -> (cut: (Seq<char>, Seq<char>))
    ensures
        is_blank(cut.0),
        is_blank(cut.1),
        s == cut.0 + trimmed(s) + cut.1,
        trimmed(s).len() > 0 ==> !is_space(trimmed(s)[0]) && !is_space(trimmed(s).last()),
        trimmed(s).len() == 0 <==> is_blank(s),
{
    let a = lemma_trim_front_cuts(s);
    let b = lemma_trim_back_cuts(trim_front(s));
    let t = trimmed(s);
    assert(s =~= a + t + b);
    if t.len() == 0 {
        assert forall|i: int| 0 <= i < s.len() implies is_space(#[trigger] s[i]) by {
            if i < a.len() {
                assert(s[i] == a[i]);
            } else {
                assert(s[i] == b[i - a.len()]);
            }
        }
    } else {
        assert(s[a.len() as int] == t[0]);
    }
    (a, b)
}

/// Text between two runs of white space is what trimming leaves, if it
/// neither starts nor ends with it.
pub proof fn law_trimming_finds_the_text(a: Seq<char>, t: Seq<char>, b: Seq<char>)
    requires
        is_blank(a),
        is_blank(b),
        t.len() > 0 ==> !is_space(t[0]) && !is_space(t.last()),
    ensures
        trimmed(a + t + b) == t,
    decreases a.len() + b.len(),
{
    let s = a + t + b;
    if t.len() == 0 {
        assert forall|i: int| 0 <= i < s.len() implies is_space(#[trigger] s[i]) by {
            if i < a.len() {
                assert(s[i] == a[i]);
            } else {
                assert(s[i] == b[i - a.len()]);
            }
        }
        let cut = law_trimming_cuts_white_space_only(s);
        assert(trimmed(s) =~= t);
    } else if a.len() > 0 {
        assert(is_space(a[0]));
        let rest = a.drop_first();
        assert forall|i: int| 0 <= i < rest.len() implies is_space(#[trigger] rest[i]) by {
            assert(rest[i] == a[i + 1]);
        }
        assert(s[0] == a[0]);
        assert(s.drop_first() =~= rest + t + b);
        law_trimming_finds_the_text(rest, t, b);
    } else if b.len() > 0 {
        assert(s[0] == t[0]);
        assert(trim_front(s) == s);
        let front = b.drop_last();
        assert(is_space(b[b.len() - 1]));
        assert forall|i: int| 0 <= i < front.len() implies is_space(#[trigger] front[i]) by {
            assert(front[i] == b[i]);
        }
        assert(s.last() == b.last());
        assert(s.drop_last() =~= a + t + front);
        law_trimming_finds_the_text(a, t, front);
        assert((a + t + front)[0] == t[0]);
        assert(trim_front(a + t + front) == a + t + front);
    } else {
        assert(s =~= t);
    }
}

/// What is found before and after a character is what the text is made of:
/// nothing before it is the character, and without one there is none.
pub proof fn law_cutting_finds_the_first(s: Seq<char>, c: char, a: Seq<char>, b: Seq<char>)
    ensures
        cut_at(s, c) == Some((a, b)) ==> s == a + seq![c] + b && !a.contains(c),
        cut_at(s, c) is None <==> !s.contains(c),
        !a.contains(c) ==> cut_at(a + seq![c] + b, c) == Some((a, b)),
{
    lemma_first_at(s, c);
    if cut_at(s, c) is Some {
        let i = first_at(s, c);
        assert(s =~= s.take(i) + seq![c] + s.skip(i + 1));
        if s.take(i).contains(c) {
            let j = s.take(i).index_of(c);
            assert(s[j] == c);
        }
        assert(s.contains(s[i]));
    }
    if !a.contains(c) {
        let t = a + seq![c] + b;
        lemma_first_at(t, c);
        assert(t[a.len() as int] == c);
        let i = first_at(t, c);
        if i < a.len() {
            assert(t[i] == a[i]);
            assert(a.contains(a[i]));
        }
        assert(i == a.len());
        assert(t.take(i) =~= a);
        assert(t.skip(i + 1) =~= b);
    }
}

proof fn lemma_first_at(s: Seq<char>, c: char)
    ensures
        0 <= first_at(s, c) <= s.len(),
        first_at(s, c) < s.len() ==> s[first_at(s, c)] == c,
        forall|i: int| 0 <= i < first_at(s, c) ==> #[trigger] s[i] != c,
    decreases s.len(),
{
    if s.len() > 0 && s[0] != c {
        let rest = s.drop_first();
        lemma_first_at(rest, c);
        assert forall|i: int| 0 <= i < first_at(s, c) implies #[trigger] s[i] != c by {
            if i > 0 {
                assert(s[i] == rest[i - 1]);
            }
        }
    }
}

/// One text stands before another exactly if it is the start of the other, or
/// has the smaller code point where they first differ.
pub proof fn law_text_order_is_by_code_point(
    p: Seq<char>,
    x: char,
    y: char,
    a: Seq<char>,
    b: Seq<char>,
)
    requires
        x != y,
    ensures
        lex_lt(p + seq![x] + a, p + seq![y] + b) <==> (x as int) < (y as int),
        lex_lt(p, p + seq![x] + a),
        !lex_lt(p + seq![x] + a, p),
{
    lemma_lex_common_start(p, seq![x] + a, seq![y] + b);
    lemma_lex_common_start(p, Seq::<char>::empty(), seq![x] + a);
    lemma_lex_common_start(p, seq![x] + a, Seq::<char>::empty());
    assert(p + seq![x] + a =~= p + (seq![x] + a));
    assert(p + seq![y] + b =~= p + (seq![y] + b));
    assert(p + Seq::<char>::empty() =~= p);
}

/// The number that a text writes is within the range it is read for.
pub proof fn law_numbers_stay_in_range(s: Seq<char>, min: int, max: int)
    requires
        min <= 0 <= max,
    ensures
        int_value(s, min, max) matches Ok(n) ==> min <= n <= max,
{
    lemma_digits_range(s, false, min, max);
    if s.len() > 0 {
        lemma_digits_range(s.drop_first(), false, min, max);
        lemma_digits_range(s.drop_first(), true, min, max);
    }
}

proof fn lemma_digits_range(s: Seq<char>, neg: bool, min: int, max: int)
    requires
        min <= 0 <= max,
    ensures
        digits_value(s, neg, min, max) matches Ok(n) ==> min <= n <= max,
    decreases s.len(),
{
    if s.len() > 0 {
        lemma_digits_range(s.drop_last(), neg, min, max);
    }
}

/// Reading back a number with its sign gives the number, in every range that
/// holds it; a plus sign in front changes nothing.
pub proof fn law_signed_decimal_reads_back(n: int, min: int, max: int)
    requires
        min <= 0 <= max,
        min <= n <= max,
    ensures
        int_value(signed_decimal(n), min, max) == Ok::<int, IntError>(n),
        n >= 0 ==> int_value(seq!['+'] + decimal(n as nat), min, max) == Ok::<int, IntError>(n),
{
    if n >= 0 {
        law_decimal_reads_back(n as nat, min, max);
        lemma_decimal_digits(n as nat, min, max);
        lemma_decimal_start(n as nat);
        assert((seq!['+'] + decimal(n as nat)).drop_first() =~= decimal(n as nat));
    } else {
        let m = (-n) as nat;
        lemma_negative_digits(m, min, max);
        lemma_decimal_start(m);
        assert((seq!['-'] + decimal(m)).drop_first() =~= decimal(m));
    }
}

proof fn lemma_negative_digits(n: nat, min: int, max: int)
    requires
        min <= -n,
        0 <= max,
    ensures
        digits_value(decimal(n), true, min, max) == Ok::<int, IntError>(-n),
    decreases n,
{
    reveal_with_fuel(digits_value, 2);
    if n < 10 {
        assert(decimal(n).drop_last() =~= Seq::<char>::empty());
    } else {
        lemma_negative_digits(n / 10, min, max);
        assert(decimal(n).drop_last() =~= decimal(n / 10));
    }
}

/// A number outside the range is told as such.
pub proof fn law_numbers_out_of_range_are_refused(n: nat, min: int, max: int)
    requires
        min <= 0 <= max,
    ensures
        n > max ==> int_value(decimal(n), min, max) == Err::<int, IntError>(IntError::PosOverflow),
        -n < min < 0 ==> int_value(signed_decimal(-n), min, max) == Err::<int, IntError>(
            IntError::NegOverflow,
        ),
{
    lemma_decimal_start(n);
    if n > max {
        lemma_digits_overflow(n, min, max);
    }
    if -n < min && min < 0 {
        lemma_digits_underflow(n, min, max);
        assert((seq!['-'] + decimal(n)).drop_first() =~= decimal(n));
    }
}

proof fn lemma_digits_overflow(n: nat, min: int, max: int)
    requires
        min <= 0 <= max < n,
    ensures
        digits_value(decimal(n), false, min, max) == Err::<int, IntError>(IntError::PosOverflow),
    decreases n,
{
    reveal_with_fuel(digits_value, 2);
    if n < 10 {
        assert(decimal(n).drop_last() =~= Seq::<char>::empty());
    } else {
        assert(decimal(n).drop_last() =~= decimal(n / 10));
        if n / 10 > max {
            lemma_digits_overflow(n / 10, min, max);
        } else {
            lemma_decimal_digits(n / 10, min, max);
        }
    }
}

proof fn lemma_digits_underflow(n: nat, min: int, max: int)
    requires
        -n < min <= 0 <= max,
    ensures
        digits_value(decimal(n), true, min, max) == Err::<int, IntError>(IntError::NegOverflow),
    decreases n,
{
    reveal_with_fuel(digits_value, 2);
    if n < 10 {
        assert(decimal(n).drop_last() =~= Seq::<char>::empty());
    } else {
        assert(decimal(n).drop_last() =~= decimal(n / 10));
        if -(n / 10) < min {
            lemma_digits_underflow(n / 10, min, max);
        } else {
            lemma_negative_digits(n / 10, min, max);
        }
    }
}

/// A text that holds a character that is neither a digit nor a sign in front
/// is no number.
pub proof fn law_only_digits_are_numbers(s: Seq<char>, i: int, min: int, max: int)
    requires
        0 <= i < s.len(),
        !('0' <= s[i] <= '9'),
        i > 0 || (s[0] != '+' && (s[0] != '-' || min >= 0)),
    ensures
        int_value(s, min, max) is Err,
{
    if s.len() == 1 && (s[0] == '+' || s[0] == '-') {
    } else if s[0] == '+' {
        assert(s.drop_first()[i - 1] == s[i]);
        lemma_bad_digit(s.drop_first(), i - 1, false, min, max);
    } else if s[0] == '-' && min < 0 {
        assert(s.drop_first()[i - 1] == s[i]);
        lemma_bad_digit(s.drop_first(), i - 1, true, min, max);
    } else {
        lemma_bad_digit(s, i, false, min, max);
    }
}

proof fn lemma_bad_digit(s: Seq<char>, i: int, neg: bool, min: int, max: int)
    requires
        0 <= i < s.len(),
        !('0' <= s[i] <= '9'),
    ensures
        digits_value(s, neg, min, max) is Err,
    decreases s.len(),
{
    if i < s.len() - 1 {
        assert(s.drop_last()[i] == s[i]);
        lemma_bad_digit(s.drop_last(), i, neg, min, max);
    }
}

/// The text of a string that is there is that string's; there is none of one
/// that is missing, which counts as empty.
pub proof fn law_texts_are_those_of_the_strings(s: String, v: Seq<String>, i: int)
    requires
        0 <= i < v.len(),
    ensures
        opt_text(Some(s)) == Some(s@),
        opt_text(None) is None,
        text_or_empty(Some(s@)) == s@,
        text_or_empty(None).len() == 0,
        texts(v).len() == v.len(),
        texts(v)[i] == v[i]@,
{
}

/// Lower case turns `A` to `Z` into `a` to `z`, leaves every other ASCII
/// character as it is, and keeps the length.
pub proof fn law_lower_case_of_ascii(s: Seq<char>, i: int)
    requires
        0 <= i < s.len(),
        all_ascii(s),
    ensures
        ascii_lowercase(s).len() == s.len(),
        65 <= s[i] as int <= 90 ==> ascii_lowercase(s)[i] as int == s[i] as int + 32,
        !(65 <= s[i] as int <= 90) ==> ascii_lowercase(s)[i] == s[i],
{
}

/// Numbers are read digit by digit, after a sign if there is one. A further
/// digit makes the number ten times as large and counts on; what is no digit,
/// or takes the number out of its range, ends the reading for good. Zeros in
/// front are read as any digit is.
pub proof fn law_numbers_are_read_digit_by_digit(s: Seq<char>, c: char, min: int, max: int)
    requires
        min <= 0 <= max,
    ensures
        int_value(Seq::empty(), min, max) == Err::<int, IntError>(IntError::Empty),
        int_value(seq!['+'], min, max) == Err::<int, IntError>(IntError::InvalidDigit),
        int_value(seq!['-'], min, max) == Err::<int, IntError>(IntError::InvalidDigit),
        ({
            let d = c as int - 48;
            let one = int_value(seq![c], min, max);
            if !(0 <= d <= 9) {
                one == Err::<int, IntError>(IntError::InvalidDigit)
            } else if d > max {
                one == Err::<int, IntError>(IntError::PosOverflow)
            } else {
                one == Ok::<int, IntError>(d)
            }
        }),
        int_value(seq!['+', c], min, max) == int_value(seq![c], min, max),
        min == 0 && s.len() > 1 && s[0] == '-' ==> int_value(s, min, max) == Err::<int, IntError>(
            IntError::InvalidDigit,
        ),
        min < 0 ==> ({
            let d = c as int - 48;
            let one = int_value(seq!['-', c], min, max);
            if !(0 <= d <= 9) {
                one == Err::<int, IntError>(IntError::InvalidDigit)
            } else if -d < min {
                one == Err::<int, IntError>(IntError::NegOverflow)
            } else {
                one == Ok::<int, IntError>(-d)
            }
        }),
        s.len() > 0 && !(s.len() == 1 && (s[0] == '+' || s[0] == '-')) ==> match int_value(
            s,
            min,
            max,
        ) {
            Err(e) => int_value(s.push(c), min, max) == Err::<int, IntError>(e),
            Ok(v) => {
                let d = c as int - 48;
                let n = if s[0] == '-' {
                    v * 10 - d
                } else {
                    v * 10 + d
                };
                if !(0 <= d <= 9) {
                    int_value(s.push(c), min, max) == Err::<int, IntError>(IntError::InvalidDigit)
                } else if n > max {
                    int_value(s.push(c), min, max) == Err::<int, IntError>(IntError::PosOverflow)
                } else if n < min {
                    int_value(s.push(c), min, max) == Err::<int, IntError>(IntError::NegOverflow)
                } else {
                    int_value(s.push(c), min, max) == Ok::<int, IntError>(n)
                }
            },
        },
{
    let none = Seq::<char>::empty();
    lemma_one_digit(c, false, min, max);
    lemma_one_digit(c, true, min, max);
    assert(seq!['+', c].drop_first() =~= seq![c]);
    assert(seq!['-', c].drop_first() =~= seq![c]);
    if s.len() > 0 {
        assert(s.push(c).drop_first() =~= s.drop_first().push(c));
        lemma_next_digit(s, c, false, min, max);
        lemma_next_digit(s.drop_first(), c, false, min, max);
        lemma_next_digit(s.drop_first(), c, true, min, max);
        if s[0] == '-' {
            lemma_minus_is_no_digit(s, min, max);
        }
    }
}

proof fn lemma_minus_is_no_digit(s: Seq<char>, min: int, max: int)
    requires
        s.len() > 0,
        s[0] == '-',
    ensures
        digits_value(s, false, min, max) == Err::<int, IntError>(IntError::InvalidDigit),
    decreases s.len(),
{
    reveal_with_fuel(digits_value, 2);
    if s.len() > 1 {
        lemma_minus_is_no_digit(s.drop_last(), min, max);
    } else {
        assert(s.drop_last() =~= Seq::<char>::empty());
    }
}

proof fn lemma_one_digit(c: char, neg: bool, min: int, max: int)
    requires
        min <= 0 <= max,
    ensures
        ({
            let d = c as int - 48;
            let one = digits_value(seq![c], neg, min, max);
            if !(0 <= d <= 9) {
                one == Err::<int, IntError>(IntError::InvalidDigit)
            } else if !neg && d > max {
                one == Err::<int, IntError>(IntError::PosOverflow)
            } else if neg && -d < min {
                one == Err::<int, IntError>(IntError::NegOverflow)
            } else {
                one == Ok::<int, IntError>(if neg {
                    -d
                } else {
                    d
                })
            }
        }),
{
    reveal_with_fuel(digits_value, 2);
    assert(seq![c].drop_last() =~= Seq::<char>::empty());
}

proof fn lemma_next_digit(s: Seq<char>, c: char, neg: bool, min: int, max: int)
    ensures
        match digits_value(s, neg, min, max) {
            Err(e) => digits_value(s.push(c), neg, min, max) == Err::<int, IntError>(e),
            Ok(v) => {
                let d = c as int - 48;
                let n = if neg {
                    v * 10 - d
                } else {
                    v * 10 + d
                };
                if !(0 <= d <= 9) {
                    digits_value(s.push(c), neg, min, max) == Err::<int, IntError>(
                        IntError::InvalidDigit,
                    )
                } else if n > max {
                    digits_value(s.push(c), neg, min, max) == Err::<int, IntError>(
                        IntError::PosOverflow,
                    )
                } else if n < min {
                    digits_value(s.push(c), neg, min, max) == Err::<int, IntError>(
                        IntError::NegOverflow,
                    )
                } else {
                    digits_value(s.push(c), neg, min, max) == Ok::<int, IntError>(n)
                }
            },
        },
{
    assert(s.push(c).drop_last() =~= s);
}

/// Texts are told apart, searched and taken apart by their characters.
pub proof fn law_texts_are_taken_apart(
    a: &str,
    b: &str,
    same: bool,
    before: bool,
    rest: Option<String>,
    ends: bool,
    v: &[String],
    found: bool,
)
    requires
        call_ensures(same_text, (a, b), same),
        call_ensures(text_before, (a, b), before),
        call_ensures(strip_prefix, (a, b), rest),
        call_ensures(ends_with, (a, b), ends),
        call_ensures(contains_text, (v, a), found),
    ensures
        same <==> a@ == b@,
        before <==> lex_lt(a@, b@),
        rest matches Some(x) ==> a@ == b@ + x@,
        rest is None ==> !has_prefix(a@, b@),
        ends <==> b@.len() <= a@.len() && a@.skip(a@.len() - b@.len()) == b@,
        found <==> exists|i: int| 0 <= i < v@.len() && (#[trigger] v@[i])@ == a@,
{
    if rest is Some {
        law_prefix_comes_off(a@, b@, rest->0@);
    }
    if found {
        let i = texts(v@).index_of(a@);
        assert(v@[i]@ == a@);
    }
    if exists|i: int| 0 <= i < v@.len() && (#[trigger] v@[i])@ == a@ {
        let i = choose|i: int| 0 <= i < v@.len() && (#[trigger] v@[i])@ == a@;
        assert(texts(v@)[i] == a@);
    }
}

/// A number is written so that reading it gives it back.
pub proof fn law_written_numbers_read_back(n: u64, s: String)
    requires
        call_ensures(u64_text, (n,), s),
    ensures
        int_value(s@, 0, u64::MAX as int) == Ok::<int, IntError>(n as int),
{
    law_decimal_reads_back(n as nat, 0, u64::MAX as int);
}

/// A text is what trimming leaves of it with white space around that.
pub proof fn law_trimmed_texts_have_no_space_around(t: &str, r: String) -> (cut: (
    Seq<char>,
    Seq<char>,
))
    requires
        call_ensures(trim, (t,), r),
    ensures
        is_blank(cut.0) && is_blank(cut.1),
        t@ == cut.0 + r@ + cut.1,
        r@.len() == 0 <==> is_blank(t@),
        r@.len() > 0 ==> !is_space(r@[0]) && !is_space(r@.last()),
{
    law_trimming_cuts_white_space_only(t@)
}

/// A text is split at the first of a character, exactly if it has one.
pub proof fn law_texts_are_split_at_the_first(
    t: &str,
    c: char,
    parts: Option<(String, String)>,
)
    requires
        call_ensures(split_once, (t, c), parts),
    ensures
        parts is Some <==> t@.contains(c),
        parts matches Some(p) ==> t@ == p.0@ + seq![c] + p.1@ && !p.0@.contains(c),
{
    match parts {
        Some(p) => law_cutting_finds_the_first(t@, c, p.0@, p.1@),
        None => law_cutting_finds_the_first(t@, c, Seq::empty(), Seq::empty()),
    }
}

} // verus!
