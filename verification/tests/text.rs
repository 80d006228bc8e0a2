use pulse::text::{
    contains_text, ends_with, is_whitespace, parse_int, same_text, split, split_once,
    string_of, strip_prefix, text_before, trim, u64_text, IntError,
};

#[test]
fn white_space_is_what_std_says() {
    for code in 0..=0x10ffffu32 {
        if let Some(c) = char::from_u32(code) {
            assert_eq!(is_whitespace(c), c.is_whitespace(), "{code:x}");
        }
    }
}

const TEXTS: [&str; 10] = ["", " ", "a", " a b ", "\u{3000}x\u{85}", "a,b", ",", "a,,b,", "é,ü", "a=b=c"];

#[test]
fn texts_are_trimmed_and_split_as_std_does() {
    for s in TEXTS {
        assert_eq!(trim(s), s.trim());
        assert_eq!(split(s, ','), s.split(',').collect::<Vec<_>>());
        let once = s.split_once('=').map(|(a, b)| (a.to_string(), b.to_string()));
        assert_eq!(split_once(s, '='), once);
        assert_eq!(string_of(&s.chars().collect::<Vec<_>>()), s);
    }
}

#[test]
fn texts_are_compared_as_std_does() {
    let mut texts = TEXTS.to_vec();
    texts.extend(["ab", "a\u{0}", "z", "\u{ffff}", "\u{10000}"]);
    for a in &texts {
        for b in &texts {
            assert_eq!(text_before(a, b), a < b, "{a:?} {b:?}");
            assert_eq!(same_text(a, b), a == b);
            assert_eq!(strip_prefix(a, b).as_deref(), a.strip_prefix(b));
            assert_eq!(ends_with(a, b), a.ends_with(b));
        }
    }
    let v: Vec<String> = texts.iter().map(|s| s.to_string()).collect();
    assert!(contains_text(&v, "ab"));
    assert!(!contains_text(&v, "abc"));
}

#[test]
fn numbers_are_written_and_read_back() {
    for n in [0, 1, 9, 10, 99, 100, 1_780_000_000_000, u64::MAX] {
        assert_eq!(u64_text(n), n.to_string());
        assert_eq!(parse_int(&u64_text(n), 0, u64::MAX as i128), Ok(n as i128));
    }
    for n in [0, -1, 10, -10, i64::MIN, i64::MAX] {
        assert_eq!(parse_int(&n.to_string(), i64::MIN as i128, i64::MAX as i128), Ok(n as i128));
    }
}

#[test]
fn numbers_are_parsed_as_std_does() {
    for s in [
        "", "+", "-", "0", "+7", "-7", "007", "255", "256", "-128", "-129", "127", "128", "1x", "x1", " 1",
        "99999999999999999999999x", "+-1", "٣",
    ] {
        let u: Result<i128, String> = s.parse::<u8>().map(|n| n as i128).map_err(|e| e.to_string());
        assert_eq!(parse_int(s, 0, 255).map_err(|e| e.message()), u, "{s}");
        let i: Result<i128, String> = s.parse::<i8>().map(|n| n as i128).map_err(|e| e.to_string());
        assert_eq!(parse_int(s, -128, 127).map_err(|e| e.message()), i, "{s}");
    }
    assert_eq!(parse_int("", 0, 9), Err(IntError::Empty));
    assert_eq!(parse_int("a", 0, 9), Err(IntError::InvalidDigit));
    assert_eq!(parse_int("10", 0, 9), Err(IntError::PosOverflow));
    assert_eq!(parse_int("-10", -9, 9), Err(IntError::NegOverflow));
}
