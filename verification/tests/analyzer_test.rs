use politebot_core::{analyze, score_scraper, Verdict};

#[test]
fn flags_missing_user_agent_and_rate_limit() {
    let src = "import requests\nfor url in urls:\n    requests.get(url)\n";
    let score = analyze(src);
    assert_eq!(score.verdict, Verdict::Red);
    assert_eq!(score.findings.len(), 2);
    assert_eq!(score.findings[0].line, 3);
}

#[test]
fn yellow_when_only_rate_limit_missing() {
    let src = "headers = {\"User-Agent\": \"my-bot/1.0\"}\nrequests.get(url, headers=headers)\n";
    let score = analyze(src);
    assert_eq!(score.verdict, Verdict::Yellow);
    assert_eq!(score.findings.len(), 1);
}

#[test]
fn green_when_polite() {
    let src = "import time, requests\nheaders = {\"User-Agent\": \"my-bot/1.0\"}\nfor url in urls:\n    requests.get(url, headers=headers)\n    time.sleep(1)\n";
    let score = analyze(src);
    assert_eq!(score.verdict, Verdict::Green);
    assert!(score.findings.is_empty());
}

#[test]
fn analyzer_test_to_json_produces_well_formed_output() {
    let score = analyze("requests.get(url)");
    let json = score.to_json();
    assert!(json.starts_with(r#"{"verdict":"red","findings":["#));
    assert!(json.contains(r#""line":1"#));
}

#[test]
fn recognizes_tenacity_retry_decorator_as_backoff() {
    let src = "headers = {\"User-Agent\": \"my-bot/1.0\"}\n@retry(wait=wait_exponential())\ndef fetch():\n    requests.get(url, headers=headers)\n";
    let score = analyze(src);
    assert_eq!(score.verdict, Verdict::Green);
    assert!(score.findings.is_empty());
}

#[test]
fn flags_default_library_user_agent_as_distinct_finding() {
    let src = "import time, requests\nheaders = {\"User-Agent\": \"python-requests/2.31.0\"}\nfor url in urls:\n    requests.get(url, headers=headers)\n    time.sleep(1)\n";
    let score = analyze(src);
    assert_eq!(score.verdict, Verdict::Yellow);
    assert_eq!(score.findings.len(), 1);
    assert!(score.findings[0].message.contains("default string"));
    assert_eq!(score.findings[0].line, 2);
}

#[test]
fn custom_user_agent_string_produces_no_default_finding() {
    let src = "import time, requests\nheaders = {\"User-Agent\": \"my-research-bot/1.0\"}\nrequests.get(url, headers=headers)\ntime.sleep(1)\n";
    let score = analyze(src);
    assert_eq!(score.verdict, Verdict::Green);
    assert!(score.findings.is_empty());
}

#[test]
fn unrecognized_source_degrades_to_yellow_instead_of_red() {
    let src = "print(\"hello world\")\nlet x = 1 + 1;\n";
    let score = analyze(src);
    assert_eq!(score.verdict, Verdict::Yellow);
    assert_eq!(score.findings.len(), 1);
    assert_eq!(score.findings[0].line, 1);
}

#[test]
fn empty_source_degrades_to_yellow_instead_of_red() {
    let score = analyze("");
    assert_eq!(score.verdict, Verdict::Yellow);
}

#[test]
fn never_panics_on_empty_or_binary_looking_input() {
    let _ = analyze("");
    let _ = analyze("\u{0}\u{1}not real code\u{7f}");
}

#[test]
fn red_json_report_lists_both_findings_in_order() {
    let json = score_scraper("import requests\nrequests.get(url)\n");
    assert_eq!(
        json,
        "{\"verdict\":\"red\",\"findings\":[{\"line\":2,\"message\":\"no User-Agent header found \u{2014} scrapers should identify themselves\"},{\"line\":2,\"message\":\"no rate limiting or backoff detected between requests\"}]}"
    );
}

#[test]
fn green_json_report_has_empty_findings() {
    let json = score_scraper("headers = {\"user-agent\": \"bot\"}\nfetch(url)\nsetTimeout(next, 500)\n");
    assert_eq!(json, "{\"verdict\":\"green\",\"findings\":[]}");
}

#[test]
fn unrecognized_finding_message_and_line() {
    let score = analyze("x = 1\n");
    assert_eq!(score.findings[0].line, 1);
    assert_eq!(
        score.findings[0].message,
        "couldn't recognize a request-library pattern in this source \u{2014} verify User-Agent and rate limiting manually"
    );
    assert_eq!(score.verdict.to_string(), "yellow");
}

#[test]
fn default_user_agent_detection_ignores_case() {
    let src = "h = {\"User-Agent\": \"Go-HTTP-Client/1.1\"}\nrequests.get(u, headers=h)\ntime.sleep(2)\n";
    let score = analyze(src);
    assert_eq!(score.verdict, Verdict::Yellow);
    assert_eq!(score.findings[0].line, 1);
    assert!(score.findings[0].message.contains("default string"));
}

#[test]
fn default_user_agent_and_no_rate_limit_is_red() {
    let src = "session.post(u, headers={\"User-Agent\": \"curl/8.0\"})\n";
    let score = analyze(src);
    assert_eq!(score.verdict, Verdict::Red);
    assert_eq!(score.findings.len(), 2);
    assert!(score.findings[0].message.contains("default string"));
    assert_eq!(score.findings[1].message, "no rate limiting or backoff detected between requests");
}

#[test]
fn finding_points_at_first_request_line_with_crlf_endings() {
    let src = "import requests\r\n\r\nx = 2\r\nrequests.get(u)\r\n";
    let score = analyze(src);
    assert_eq!(score.verdict, Verdict::Red);
    assert_eq!(score.findings[0].line, 4);
    assert_eq!(score.findings[1].line, 4);
}

#[test]
fn multibyte_text_keeps_line_numbers() {
    let src = "# caf\u{e9} \u{1f600}\n\u{e9}\u{e9}\nurlopen(u)\n";
    let score = analyze(src);
    assert_eq!(score.findings[0].line, 3);
}

#[test]
fn finding_message_with_quotes_is_escaped_in_json() {
    let json = analyze("requests.get(url)").to_json();
    assert!(json.ends_with("between requests\"}]}"));
}
