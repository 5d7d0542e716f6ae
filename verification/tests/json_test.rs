use politebot_core::json::encode;
use politebot_core::suggest_fix;

#[test]
fn escapes_control_characters() {
    // The encoder every module escapes user-controlled text through must stay
    // correct per RFC 8259.
    assert_eq!(encode("a\tb\rc"), "\"a\\tb\\rc\"");
}

#[test]
fn escapes_quotes_and_backslashes() {
    assert_eq!(encode(r#"he said "hi"\ "#), r#""he said \"hi\"\\ ""#);
}

#[test]
fn escapes_low_control_chars_as_unicode() {
    assert_eq!(encode("\u{0007}"), "\"\\u0007\"");
}

#[test]
fn encode_escapes_newline_and_high_control_chars() {
    assert_eq!(encode("a\nb"), "\"a\\nb\"");
    assert_eq!(encode("\u{001b}"), "\"\\u001b\"");
    assert_eq!(encode("\u{0000}\u{001f}"), "\"\\u0000\\u001f\"");
}

#[test]
fn encode_keeps_other_characters() {
    assert_eq!(encode(""), "\"\"");
    assert_eq!(encode("h\u{e9}llo \u{2014} \u{7f}"), "\"h\u{e9}llo \u{2014} \u{7f}\"");
}

#[test]
fn encode_output_has_no_raw_control_chars() {
    let all: String = (0u32..0x80).filter_map(char::from_u32).collect();
    let out = encode(&all);
    assert!(out.starts_with('"') && out.ends_with('"'));
    assert!(out.chars().all(|c| (c as u32) >= 0x20));
}

#[test]
fn fix_report_escapes_tabs_in_patched_source() {
    let json = suggest_fix("\trequests.get(u)\n", 1);
    assert!(json.contains("\\theaders = {\\\"User-Agent\\\": "));
    assert!(json.contains("\\trequests.get(u, headers=headers)"));
    assert!(!json.contains('\t'));
}

/// Reads one JSON string literal from the start of `t`, returning its value
/// and the text after its closing quote.
fn read_literal(t: &str) -> (String, &str) {
    let mut chars = t.char_indices();
    assert_eq!(chars.next().map(|(_, c)| c), Some('"'));
    let mut out = String::new();
    while let Some((i, c)) = chars.next() {
        match c {
            '"' => return (out, &t[i + 1..]),
            '\\' => {
                let (_, e) = chars.next().unwrap();
                match e {
                    '"' => out.push('"'),
                    '\\' => out.push('\\'),
                    '/' => out.push('/'),
                    'n' => out.push('\n'),
                    'r' => out.push('\r'),
                    't' => out.push('\t'),
                    'b' => out.push('\u{8}'),
                    'f' => out.push('\u{c}'),
                    'u' => {
                        let hex: String = (0..4).map(|_| chars.next().unwrap().1).collect();
                        out.push(char::from_u32(u32::from_str_radix(&hex, 16).unwrap()).unwrap());
                    }
                    other => panic!("bad escape {other:?}"),
                }
            }
            c => {
                assert!((c as u32) >= 0x20, "raw control character");
                out.push(c);
            }
        }
    }
    panic!("no closing quote");
}

#[test]
fn encoded_strings_read_back_exactly() {
    let samples = ["", "plain", "q\"uo\\te", "\u{0}\u{7}\u{1f}\t\r\n", "\u{e9}\u{1f600}/\u{7f}"];
    for s in samples {
        let encoded = encode(s);
        let text = format!("{encoded},tail");
        let (value, rest) = read_literal(&text);
        assert_eq!(value, s);
        assert_eq!(rest, ",tail");
    }
}

#[test]
fn fix_report_members_read_back() {
    let src = "\tx = \"a\\\\b\"; requests.get(u)\r\n";
    let fix = politebot_core::suggest_user_agent_fix(src, 1).unwrap();
    let json = fix.to_json();
    let after_diff = json.strip_prefix("{\"diff\":").unwrap();
    let (diff, rest) = read_literal(after_diff);
    assert_eq!(diff, fix.diff);
    let after_source = rest.strip_prefix(",\"patched_source\":").unwrap();
    let (patched, rest) = read_literal(after_source);
    assert_eq!(patched, fix.patched_source);
    assert_eq!(rest, "}");
}

#[test]
fn score_report_message_reads_back() {
    let json = politebot_core::score_scraper("requests.get(url)");
    let after = json.strip_prefix("{\"verdict\":\"red\",\"findings\":[{\"line\":1,\"message\":").unwrap();
    let (message, rest) = read_literal(after);
    assert_eq!(message, "no User-Agent header found \u{2014} scrapers should identify themselves");
    assert!(rest.starts_with("},{\"line\":1,\"message\":"));
}
