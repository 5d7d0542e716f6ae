use politebot_core::{check_robots, parse_robots};

fn delay(robots: &politebot_core::RobotsRules, agent: &str) -> Option<f32> {
    robots.crawl_delay(agent).map(|text| text.parse::<f32>().unwrap())
}

#[test]
fn disallow_blocks_matching_prefix() {
    let robots = parse_robots("User-agent: *\nDisallow: /private\n");
    assert!(!robots.is_allowed("PoliteBot", "/private/data"));
    assert!(robots.is_allowed("PoliteBot", "/public"));
}

#[test]
fn allow_overrides_more_specific_disallow() {
    let robots = parse_robots("User-agent: *\nDisallow: /assets\nAllow: /assets/public\n");
    assert!(robots.is_allowed("PoliteBot", "/assets/public/logo.png"));
    assert!(!robots.is_allowed("PoliteBot", "/assets/private/logo.png"));
}

#[test]
fn equal_length_allow_and_disallow_favors_allow() {
    // When an Allow and a Disallow rule match with equal specificity, the
    // least-restrictive rule wins.
    let robots = parse_robots("User-agent: *\nDisallow: /path\nAllow: /path\n");
    assert!(robots.is_allowed("AnyBot", "/path"));
}

#[test]
fn grouped_user_agents_share_rules() {
    let robots = parse_robots("User-agent: BotA\nUser-agent: BotB\nDisallow: /no-bots\n");
    assert!(!robots.is_allowed("BotA", "/no-bots/page"));
    assert!(!robots.is_allowed("BotB", "/no-bots/page"));
}

#[test]
fn specific_agent_group_beats_wildcard() {
    let robots =
        parse_robots("User-agent: *\nDisallow: /\n\nUser-agent: PoliteBot\nDisallow:\nAllow: /\n");
    assert!(robots.is_allowed("PoliteBot", "/anything"));
    assert!(!robots.is_allowed("OtherBot", "/anything"));
}

#[test]
fn crawl_delay_is_parsed_per_group() {
    let robots = parse_robots("User-agent: *\nCrawl-delay: 2.5\n");
    assert_eq!(delay(&robots, "PoliteBot"), Some(2.5));
}

#[test]
fn missing_robots_txt_allows_everything() {
    let robots = parse_robots("");
    assert!(robots.is_allowed("AnyBot", "/whatever"));
    assert_eq!(delay(&robots, "AnyBot"), None);
}

#[test]
fn comments_and_malformed_lines_are_ignored() {
    let robots = parse_robots(
        "# a comment\nnot a directive\nUser-agent: *\nDisallow: /x # trailing comment\n",
    );
    assert!(!robots.is_allowed("AnyBot", "/x/y"));
}

#[test]
fn groups_are_parsed_in_order_with_lowercased_agents() {
    let robots = parse_robots(
        "User-Agent: BotA\nuser-agent: BOTB\nDisallow: /a\nAllow: /a/b\nCrawl-Delay: 3\n\nUser-agent: *\nDisallow: /\n",
    );
    assert_eq!(robots.groups.len(), 2);
    assert_eq!(robots.groups[0].agents, vec!["bota".to_string(), "botb".to_string()]);
    assert_eq!(robots.groups[0].disallow, vec!["/a".to_string()]);
    assert_eq!(robots.groups[0].allow, vec!["/a/b".to_string()]);
    assert_eq!(robots.groups[0].crawl_delay, Some("3".to_string()));
    assert_eq!(robots.groups[1].agents, vec!["*".to_string()]);
    assert_eq!(robots.groups[1].crawl_delay, None);
}

#[test]
fn agent_names_match_in_any_ascii_case() {
    let robots = parse_robots("User-agent: PoliteBot\nDisallow: /x\n");
    assert!(!robots.is_allowed("POLITEBOT", "/x"));
    assert!(!robots.is_allowed("politebot", "/x/1"));
    assert!(robots.is_allowed("OtherBot", "/x"));
}

#[test]
fn directives_before_any_user_agent_are_ignored() {
    let robots = parse_robots("Disallow: /\nCrawl-delay: 4\n");
    assert!(robots.groups.is_empty());
    assert!(robots.is_allowed("AnyBot", "/"));
}

#[test]
fn rule_after_agent_starts_a_new_group() {
    let robots = parse_robots("User-agent: a\nDisallow: /x\nUser-agent: b\nDisallow: /y\n");
    assert_eq!(robots.groups.len(), 2);
    assert!(robots.is_allowed("a", "/y"));
    assert!(!robots.is_allowed("b", "/y"));
    assert!(robots.is_allowed("b", "/x"));
}

#[test]
fn longer_disallow_beats_shorter_allow() {
    let robots = parse_robots("User-agent: *\nAllow: /a\nDisallow: /a/b\n");
    assert!(!robots.is_allowed("x", "/a/b/c"));
    assert!(robots.is_allowed("x", "/a/c"));
}

#[test]
fn invalid_crawl_delay_is_none_and_reopens_the_group() {
    let robots = parse_robots("User-agent: a\nCrawl-delay: soon\nUser-agent: b\nDisallow: /z\n");
    assert_eq!(robots.groups.len(), 1);
    assert_eq!(robots.groups[0].agents.len(), 2);
    assert_eq!(robots.crawl_delay("a"), None);
    assert!(!robots.is_allowed("b", "/z"));
}

#[test]
fn crawl_delay_falls_back_to_wildcard_group() {
    let robots = parse_robots("User-agent: *\nCrawl-delay: 10\nUser-agent: named\nDisallow: /q\n");
    assert_eq!(delay(&robots, "someone"), Some(10.0));
    assert_eq!(delay(&robots, "named"), None);
}

#[test]
fn crawl_delay_accepts_exactly_what_f32_parse_accepts() {
    let samples = [
        "2.5", "10", ".5", "5.", ".", "", "+1", "-2.0", "1e3", "1E-3", "1e", "e3", "1.5e+2",
        "inf", "+Infinity", "-INF", "NaN", "nan1", "infin", "1.2.3", "1_000", "0x10", "12abc",
        " 1", "1 ", "+", "-", "+.", "1e+", "00.00e00", "\u{661}",
    ];
    for s in samples {
        let robots = parse_robots(&format!("User-agent: *\nCrawl-delay: {s}\n"));
        let trimmed = s.trim();
        let expected = trimmed.parse::<f32>().is_ok();
        assert_eq!(robots.crawl_delay("x").is_some(), expected, "value {s:?}");
        if expected {
            assert_eq!(robots.crawl_delay("x"), Some(trimmed.to_string()));
        }
    }
}

#[test]
fn crlf_lines_and_tabs_are_handled() {
    let robots = parse_robots("User-agent:\t*\r\nDisallow:\t/tmp \r\n");
    assert!(!robots.is_allowed("x", "/tmp/file"));
    assert!(robots.is_allowed("x", "/tm"));
}

#[test]
fn check_robots_matches_is_allowed() {
    let txt = "User-agent: *\nDisallow: /private\n";
    assert!(!check_robots(txt, "Bot", "/private/x"));
    assert!(check_robots(txt, "Bot", "/pub"));
    assert!(check_robots("", "Bot", "/private/x"));
}

#[test]
fn multibyte_rules_use_longest_prefix() {
    let robots = parse_robots("User-agent: *\nDisallow: /\u{e9}\nAllow: /\u{e9}t\u{e9}\n");
    assert!(robots.is_allowed("x", "/\u{e9}t\u{e9}/a"));
    assert!(!robots.is_allowed("x", "/\u{e9}ta"));
}

#[test]
fn unknown_directives_are_skipped() {
    let robots = parse_robots("User-agent: *\nSitemap: https://example.com/map.xml\nHost: example.com\nDisallow: /a\n");
    assert_eq!(robots.groups.len(), 1);
    assert_eq!(robots.groups[0].disallow, vec!["/a".to_string()]);
    assert!(!robots.is_allowed("x", "/a"));
}

#[test]
fn garbled_text_allows_everything() {
    let robots = parse_robots("<html>\n<body>not robots</body>\n</html>\n");
    assert!(robots.groups.is_empty());
    assert!(robots.is_allowed("x", "/anything"));
}

#[test]
fn stored_names_and_rules_are_trimmed_and_free_of_comments() {
    let robots = parse_robots("User-agent:   Big Bot   # ours\nDisallow:  /a b  #x\nAllow: /c#d\n");
    assert_eq!(robots.groups[0].agents, vec!["big bot".to_string()]);
    assert_eq!(robots.groups[0].disallow, vec!["/a b".to_string()]);
    assert_eq!(robots.groups[0].allow, vec!["/c".to_string()]);
}

#[test]
fn crawl_delay_agrees_with_f32_parse_on_every_short_value() {
    let alphabet = ['0', '7', '.', 'e', 'E', '+', '-', 'i', 'n', 'f', 'a', 'N', 'x', ' '];
    let mut values: Vec<String> = Vec::new();
    for a in alphabet {
        values.push(a.to_string());
        for b in alphabet {
            values.push(format!("{a}{b}"));
            for c in alphabet {
                values.push(format!("{a}{b}{c}"));
            }
        }
    }
    for word in ["infinity", "INFINITY", "iNfInItY", "nan", "NAN", "nAn", "inf", "InF"] {
        for sign in ["", "+", "-"] {
            values.push(format!("{sign}{word}"));
            values.push(format!("{sign}{word}1"));
        }
    }
    for s in values {
        let robots = parse_robots(&format!("User-agent: *\nCrawl-delay: {s}\n"));
        let trimmed = s.trim();
        let expected = trimmed.parse::<f32>().is_ok();
        assert_eq!(robots.crawl_delay("x").is_some(), expected, "value {s:?}");
        if expected {
            assert_eq!(robots.crawl_delay("x"), Some(trimmed.to_string()));
        }
    }
}
