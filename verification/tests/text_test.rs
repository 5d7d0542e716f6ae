use politebot_core::text::{
    contains_chars, find_chars, is_whitespace, leading_whitespace_chars, lower_ascii_char,
    push_decimal, split_lines, str_chars, trim_chars,
};

fn chars(s: &str) -> Vec<char> {
    s.chars().collect()
}

#[test]
fn whitespace_matches_char_is_whitespace() {
    for code in 0u32..0x3100 {
        if let Some(c) = char::from_u32(code) {
            assert_eq!(is_whitespace(c), c.is_whitespace(), "U+{code:04X}");
        }
    }
    assert!(!is_whitespace('\u{feff}'));
}

#[test]
fn ascii_lowercase_matches_std() {
    for code in 0u32..0x300 {
        if let Some(c) = char::from_u32(code) {
            assert_eq!(lower_ascii_char(c), c.to_ascii_lowercase());
        }
    }
}

#[test]
fn split_lines_matches_str_lines() {
    let samples = [
        "", "\n", "a", "a\n", "a\nb", "a\r\nb\r\n", "a\n\nb", "a\r", "a\rb\n", "\r\n", "a\r\r\n",
        "foo\r\nbar\n\nbaz\r", "\u{e9}\n\u{1f600}\r\n", "\n\n\n", "x\n\r",
    ];
    for s in samples {
        let expected: Vec<Vec<char>> = s.lines().map(chars).collect();
        assert_eq!(split_lines(&chars(s)), expected, "{s:?}");
    }
}

#[test]
fn trim_and_leading_whitespace_match_std() {
    let samples = ["", "  a b  ", "\t\u{3000}x\u{a0}", "abc", "   ", "\u{2028}q\r\n"];
    for s in samples {
        assert_eq!(trim_chars(&chars(s)), chars(s.trim()));
        let lead: String = s.chars().take_while(|c| c.is_whitespace()).collect();
        assert_eq!(leading_whitespace_chars(&chars(s)), chars(&lead));
    }
}

#[test]
fn find_and_contains_match_std() {
    let pairs = [("hello world", "o"), ("abc", ""), ("", "a"), ("aaab", "ab"), ("x.get(y)", ".get("), ("abc", "abcd")];
    for (hay, needle) in pairs {
        let expected = hay.find(needle).map(|b| hay[..b].chars().count());
        assert_eq!(find_chars(&chars(hay), &chars(needle)), expected);
        assert_eq!(contains_chars(&chars(hay), &chars(needle)), hay.contains(needle));
    }
}

#[test]
fn decimal_rendering() {
    for n in [0u128, 7, 10, 99, 100, 12345, u64::MAX as u128] {
        let mut s = String::from("n=");
        push_decimal(&mut s, n);
        assert_eq!(s, format!("n={n}"));
    }
}

#[test]
fn str_chars_keeps_every_character() {
    assert_eq!(str_chars("a\u{e9}\u{1f600}"), vec!['a', '\u{e9}', '\u{1f600}']);
}
