use vps_bandwidth_observer::text::{
    char_is_whitespace, chars_of, parse_decimal, split_at_char, split_lines, split_words,
    string_from_chars, trimmed,
};

fn s(v: &[char]) -> String {
    v.iter().collect()
}

#[test]
fn whitespace_matches_std_for_every_char() {
    for c in (0u32..=0x10ffff).filter_map(char::from_u32) {
        assert_eq!(char_is_whitespace(c), c.is_whitespace(), "{:x}", c as u32);
    }
}

#[test]
fn lines_match_str_lines() {
    for text in ["", "a", "a\n", "a\nb", "a\r\nb\r\n", "\n\n", "x\r", "x\r\r\n", "\r\n", "one\ntwo\n\nthree"] {
        let ours: Vec<String> = split_lines(&chars_of(text)).iter().map(|l| s(l)).collect();
        let std: Vec<String> = text.lines().map(str::to_owned).collect();
        assert_eq!(ours, std, "{text:?}");
    }
}

#[test]
fn words_match_split_whitespace() {
    for text in ["", "  ", "a b", " a\u{a0}b\t\nc  ", "x\u{3000}y\u{85}z", "one"] {
        let ours: Vec<String> = split_words(&chars_of(text)).iter().map(|w| s(w)).collect();
        let std: Vec<String> = text.split_whitespace().map(str::to_owned).collect();
        assert_eq!(ours, std, "{text:?}");
    }
}

#[test]
fn trim_matches_str_trim() {
    for text in ["", "  ", " a ", "\u{2000}a b\u{205f}", "ab"] {
        assert_eq!(s(&trimmed(&chars_of(text))), text.trim(), "{text:?}");
    }
}

#[test]
fn split_once_matches_str() {
    for text in ["a:b", ":", "ab", "a:b:c", ""] {
        let ours = split_at_char(&chars_of(text), ':').map(|(a, b)| (s(&a), s(&b)));
        let std = text.split_once(':').map(|(a, b)| (a.to_owned(), b.to_owned()));
        assert_eq!(ours, std, "{text:?}");
    }
}

#[test]
fn decimal_matches_u64_parse() {
    for text in ["0", "007", "+1", "+", "-0", "", "12a", "99999999999999999999", "18446744073709551615"] {
        let std: Option<u64> = text.parse().ok();
        assert_eq!(parse_decimal(&chars_of(text)), std, "{text:?}");
    }
}

#[test]
fn string_round_trip() {
    assert_eq!(string_from_chars(&chars_of("héllo")), "héllo");
}
