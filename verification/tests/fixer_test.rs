use politebot_core::{suggest_fix, suggest_user_agent_fix};

#[test]
fn patches_simple_requests_get_call() {
    let src = "import requests\nfor url in urls:\n    requests.get(url)\n";
    let fix = suggest_user_agent_fix(src, 3).expect("expected a fix for requests.get");

    assert!(fix.patched_source.contains("headers = {\"User-Agent\":"));
    assert!(fix
        .patched_source
        .contains("requests.get(url, headers=headers)"));
    assert!(fix.diff.contains("-    requests.get(url)"));
    assert!(fix.diff.contains("+    requests.get(url, headers=headers)"));
}

#[test]
fn preserves_indentation_of_the_original_line() {
    let src = "def scrape():\n        requests.get(url)\n";
    let fix = suggest_user_agent_fix(src, 2).unwrap();
    assert!(fix.patched_source.contains("        headers = {"));
    assert!(fix
        .patched_source
        .contains("        requests.get(url, headers=headers)"));
}

#[test]
fn handles_nested_calls_in_the_argument_list() {
    let src = "requests.get(build_url(base, path))\n";
    let fix = suggest_user_agent_fix(src, 1).unwrap();
    assert!(fix
        .patched_source
        .contains("requests.get(build_url(base, path), headers=headers)"));
}

#[test]
fn handles_call_with_no_arguments() {
    let src = "requests.get()\n";
    let fix = suggest_user_agent_fix(src, 1).unwrap();
    assert!(fix.patched_source.contains("requests.get(headers=headers)"));
}

#[test]
fn patches_simple_fetch_call() {
    let src = "async function load() {\n  const res = await fetch(url);\n}\n";
    let fix = suggest_user_agent_fix(src, 2).unwrap();
    assert!(fix
        .patched_source
        .contains("fetch(url, { headers: { \"User-Agent\": "));
    assert!(fix.diff.contains("-  const res = await fetch(url);"));
}

#[test]
fn declines_fetch_call_with_existing_options_argument() {
    let src = "fetch(url, { method: \"GET\" })\n";
    assert!(suggest_user_agent_fix(src, 1).is_none());
}

#[test]
fn declines_fetch_call_with_no_arguments() {
    assert!(suggest_user_agent_fix("fetch()\n", 1).is_none());
}

#[test]
fn returns_none_for_unsupported_call_shape() {
    assert!(suggest_user_agent_fix("urlopen(url)\n", 1).is_none());
}

#[test]
fn returns_none_for_out_of_range_line() {
    let src = "requests.get(url)\n";
    assert!(suggest_user_agent_fix(src, 0).is_none());
    assert!(suggest_user_agent_fix(src, 99).is_none());
}

#[test]
fn fixer_test_to_json_produces_well_formed_output() {
    let fix = suggest_user_agent_fix("requests.get(url)\n", 1).unwrap();
    let json = fix.to_json();
    assert!(json.starts_with(r#"{"diff":"#));
    assert!(json.contains(r#""patched_source":"#));
    assert!(json.contains("headers=headers"));
}

#[test]
fn python_fix_has_exact_diff_and_patched_source() {
    let src = "import requests\nfor url in urls:\n    requests.get(url)\n";
    let fix = suggest_user_agent_fix(src, 3).unwrap();
    let header = "headers = {\"User-Agent\": \"polite-bot/1.0 (+https://github.com/ctkrug/polite-bot)\"}";
    assert_eq!(
        fix.patched_source,
        format!("import requests\n{header}\nfor url in urls:\n    requests.get(url, headers=headers)")
    );
    assert_eq!(
        fix.diff,
        format!("@@ -2,2 +2,3 @@\n+{header}\n for url in urls:\n-    requests.get(url)\n+    requests.get(url, headers=headers)")
    );
}

#[test]
fn fetch_fix_has_exact_diff_and_patched_source() {
    let src = "async function load() {\n  const res = await fetch(url);\n}\n";
    let fix = suggest_user_agent_fix(src, 2).unwrap();
    let patched = "  const res = await fetch(url, { headers: { \"User-Agent\": \"polite-bot/1.0 (+https://github.com/ctkrug/polite-bot)\" } });";
    assert_eq!(
        fix.patched_source,
        format!("async function load() {{\n{patched}\n}}")
    );
    assert_eq!(
        fix.diff,
        format!("@@ -2 +2 @@\n-  const res = await fetch(url);\n+{patched}")
    );
}

#[test]
fn fetch_with_nested_argument_commas_is_patched() {
    let fix = suggest_user_agent_fix("fetch(build(a, b))\n", 1).unwrap();
    assert!(fix.patched_source.starts_with("fetch(build(a, b), { headers: "));
}

#[test]
fn fetch_with_comma_inside_string_argument_is_patched() {
    let fix = suggest_user_agent_fix("fetch(\"/a?x=1,2\")\n", 1).unwrap();
    assert!(fix.patched_source.starts_with("fetch(\"/a?x=1,2\", { headers: "));
}

#[test]
fn declines_call_inside_a_string_literal() {
    assert!(suggest_user_agent_fix("print(\"use fetch(url) here\")\n", 1).is_none());
    assert!(suggest_user_agent_fix("log('call requests.get(u)')\n", 1).is_none());
}

#[test]
fn call_after_a_closed_string_is_patched() {
    let fix = suggest_user_agent_fix("x = \"a\\\"b\"; requests.post(u)\n", 1).unwrap();
    assert!(fix.patched_source.contains("requests.post(u, headers=headers)"));
}

#[test]
fn declines_call_without_closing_paren() {
    assert!(suggest_user_agent_fix("requests.get(url,\n", 1).is_none());
}

#[test]
fn earliest_call_on_the_line_is_patched() {
    let fix = suggest_user_agent_fix("data = fetch(u).then(r => cache.get(r))\n", 1).unwrap();
    assert!(fix.patched_source.starts_with("data = fetch(u, { headers: "));
    let fix = suggest_user_agent_fix("session.get(u).json(); fetch(v)\n", 1).unwrap();
    assert!(fix.patched_source.ends_with("\nsession.get(u, headers=headers).json(); fetch(v)"));
}

#[test]
fn trims_whitespace_around_arguments() {
    let fix = suggest_user_agent_fix("requests.get(  url  )\n", 1).unwrap();
    assert!(fix.patched_source.contains("requests.get(url, headers=headers)"));
}

#[test]
fn large_line_number_in_diff() {
    let mut src = String::new();
    for _ in 0..11 {
        src.push_str("x = 1\n");
    }
    src.push_str("requests.get(u)\n");
    let fix = suggest_user_agent_fix(&src, 12).unwrap();
    assert!(fix.diff.starts_with("@@ -12 +12,2 @@\n"));
}

#[test]
fn suggest_fix_json_or_empty() {
    assert_eq!(suggest_fix("urlopen(url)\n", 1), "");
    let json = suggest_fix("requests.get()\n", 1);
    assert!(json.starts_with("{\"diff\":\"@@ -1 +1,2 @@\\n+headers = {\\\"User-Agent\\\": "));
    assert!(json.ends_with("\"patched_source\":\"headers = {\\\"User-Agent\\\": \\\"polite-bot/1.0 (+https://github.com/ctkrug/polite-bot)\\\"}\\nrequests.get(headers=headers)\"}"));
}

#[test]
fn fixer_never_panics_on_multibyte_text() {
    let src = "\u{e9}\u{1f600}.get(\u{e9}(\u{1f600})\u{e9})\u{e9}\n";
    let fix = suggest_user_agent_fix(src, 1).unwrap();
    assert!(fix.patched_source.contains(".get(\u{e9}(\u{1f600})\u{e9}, headers=headers)\u{e9}"));
    for line in 0..4 {
        let _ = suggest_user_agent_fix("\u{1f600}fetch(\u{e9}\n\u{ff}", line);
    }
}

#[test]
fn fixed_source_keeps_every_other_line() {
    let src = "import requests\n\nfor u in urls:\n    r = requests.get(u, timeout=5)\n    print(r)\n";
    let fix = suggest_user_agent_fix(src, 4).unwrap();
    let got: Vec<&str> = fix.patched_source.lines().collect();
    assert_eq!(
        got,
        vec![
            "import requests",
            "",
            "headers = {\"User-Agent\": \"polite-bot/1.0 (+https://github.com/ctkrug/polite-bot)\"}",
            "for u in urls:",
            "    r = requests.get(u, timeout=5, headers=headers)",
            "    print(r)",
        ]
    );
}

#[test]
fn readme_sample_fix() {
    let src = "import requests\n\nfor url in urls:\n    requests.get(url)\n";
    let fix = suggest_user_agent_fix(src, 4).unwrap();
    let header = "headers = {\"User-Agent\": \"polite-bot/1.0 (+https://github.com/ctkrug/polite-bot)\"}";
    let got: Vec<&str> = fix.patched_source.lines().collect();
    assert_eq!(
        got,
        vec!["import requests", "", header, "for url in urls:", "    requests.get(url, headers=headers)"]
    );
    assert_eq!(
        fix.diff,
        format!("@@ -3,2 +3,3 @@\n+{header}\n for url in urls:\n-    requests.get(url)\n+    requests.get(url, headers=headers)")
    );
}

#[test]
fn header_goes_above_the_loop_inside_a_function() {
    let src = "def scrape(urls):\n    # fetch them all\n    while urls:\n\n        # one request\n        requests.post(urls.pop())\n";
    let fix = suggest_user_agent_fix(src, 6).unwrap();
    let got: Vec<&str> = fix.patched_source.lines().collect();
    assert_eq!(
        got,
        vec![
            "def scrape(urls):",
            "    # fetch them all",
            "    headers = {\"User-Agent\": \"polite-bot/1.0 (+https://github.com/ctkrug/polite-bot)\"}",
            "    while urls:",
            "",
            "        # one request",
            "        requests.post(urls.pop(), headers=headers)",
        ]
    );
    assert!(fix.diff.starts_with("@@ -3,4 +3,5 @@\n+    headers = {"));
    assert!(fix.diff.contains("\n     while urls:\n \n         # one request\n-        requests.post(urls.pop())\n+"));
}

#[test]
fn header_goes_above_the_innermost_loop() {
    let src = "for a in xs:\n    for b in ys:\n        requests.get(b)\n";
    let fix = suggest_user_agent_fix(src, 3).unwrap();
    let got: Vec<&str> = fix.patched_source.lines().collect();
    assert_eq!(got[1], "    headers = {\"User-Agent\": \"polite-bot/1.0 (+https://github.com/ctkrug/polite-bot)\"}");
    assert_eq!(got[2], "    for b in ys:");
}

#[test]
fn header_stays_at_call_outside_loops() {
    let src = "for u in urls:\n    pass\nrequests.get(u)\n";
    let fix = suggest_user_agent_fix(src, 3).unwrap();
    let got: Vec<&str> = fix.patched_source.lines().collect();
    assert_eq!(got[2], "headers = {\"User-Agent\": \"polite-bot/1.0 (+https://github.com/ctkrug/polite-bot)\"}");
    assert_eq!(got[3], "requests.get(u, headers=headers)");
    assert!(fix.diff.starts_with("@@ -3 +3,2 @@\n"));
}
