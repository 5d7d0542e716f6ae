//! A from-scratch robots.txt parser: groups directives by `User-agent` and
//! answers `is_allowed` queries by longest-match precedence between the
//! `Allow` and `Disallow` rules in the matching group.

use vstd::prelude::*;
use crate::text::{
    ascii_lower, chars_eq, contains, find, find_chars, first_index, is_trimmed, is_ws, join_lines, lacks,
    lemma_lines_of_join, no_newline, no_trailing_cr, trim_start,
    lemma_ascii_lower_idempotent, lemma_ascii_lower_keeps, lemma_find, lemma_find_first,
    lemma_first_index, lemma_first_index_is, lemma_lacks_subrange, lemma_trim_is_subrange,
    lemma_trim_is_trimmed, lemma_trim_of_trimmed, lower_ascii, occurs_at, split_lines, str_chars,
    string_of, text_lines, trim, trimmed_range, views,
};

verus! {

/// The rules of one `User-agent` group. `crawl_delay` holds the text of the
/// group's last `Crawl-delay` value when that text is a decimal number as
/// `f32::from_str` accepts it, and is `None` otherwise.
#[derive(Debug, Clone)]
pub struct RuleGroup {
    pub agents: Vec<String>,
    pub disallow: Vec<String>,
    pub allow: Vec<String>,
    pub crawl_delay: Option<String>,
}

/// The parsed rule groups of a robots.txt file, in file order.
#[derive(Debug, Clone)]
pub struct RobotsRules {
    pub groups: Vec<RuleGroup>,
}

/// A rule group as sequences of characters.
pub struct GroupSpec {
    pub agents: Seq<Seq<char>>,
    pub disallow: Seq<Seq<char>>,
    pub allow: Seq<Seq<char>>,
    pub crawl_delay: Option<Seq<char>>,
}

/// The views of a sequence of strings.
pub open spec fn strings(v: Seq<String>) -> Seq<Seq<char>> {
    v.map_values(|s: String| s@)
}

/// The view of an optional string.
pub open spec fn opt_string(o: Option<String>) -> Option<Seq<char>> {
    match o {
        Some(s) => Some(s@),
        None => None,
    }
}

impl View for RuleGroup {
    type V = GroupSpec;

    open spec fn view(&self) -> GroupSpec {
        GroupSpec {
            agents: strings(self.agents@),
            disallow: strings(self.disallow@),
            allow: strings(self.allow@),
            crawl_delay: opt_string(self.crawl_delay),
        }
    }
}

/// The views of a sequence of rule groups.
pub open spec fn group_views(v: Seq<RuleGroup>) -> Seq<GroupSpec> {
    v.map_values(|g: RuleGroup| g@)
}

/// The view of an optional rule group.
pub open spec fn opt_group(o: Option<RuleGroup>) -> Option<GroupSpec> {
    match o {
        Some(g) => Some(g@),
        None => None,
    }
}

impl View for RobotsRules {
    type V = Seq<GroupSpec>;

    open spec fn view(&self) -> Seq<GroupSpec> {
        group_views(self.groups@)
    }
}

impl Default for RuleGroup {
    fn default() -> (r: RuleGroup)
        ensures
            r@ == (GroupSpec {
                agents: seq![],
                disallow: seq![],
                allow: seq![],
                crawl_delay: None,
            }),
    {
        let r = RuleGroup {
            agents: Vec::new(),
            disallow: Vec::new(),
            allow: Vec::new(),
            crawl_delay: None,
        };
        assert(r@.agents =~= seq![]);
        assert(r@.disallow =~= seq![]);
        assert(r@.allow =~= seq![]);
        r
    }
}

impl Default for RobotsRules {
    fn default() -> (r: RobotsRules)
        ensures
            r@ == Seq::<GroupSpec>::empty(),
    {
        let r = RobotsRules { groups: Vec::new() };
        assert(r@ =~= Seq::<GroupSpec>::empty());
        r
    }
}

// ---------------------------------------------------------------------------
// Crawl-delay values
// ---------------------------------------------------------------------------
/// An ASCII decimal digit.
pub open spec fn is_digit(c: char) -> bool {
    '0' <= c && c <= '9'
}

/// Every character of `s` is an ASCII decimal digit.
pub open spec fn all_digits(s: Seq<char>) -> bool {
    forall|i: int| 0 <= i < s.len() ==> is_digit(#[trigger] s[i])
}

/// `s` without one leading `+` or `-`.
pub open spec fn unsigned(s: Seq<char>) -> Seq<char> {
    if s.len() > 0 && (s[0] == '+' || s[0] == '-') {
        s.drop_first()
    } else {
        s
    }
}

/// `Digit+ | Digit+ '.' Digit* | Digit* '.' Digit+`
pub open spec fn mantissa_ok(m: Seq<char>) -> bool {
    match find(m, seq!['.']) {
        None => m.len() > 0 && all_digits(m),
        Some(p) => m.len() > 1 && all_digits(m.take(p)) && all_digits(m.skip(p + 1)),
    }
}

/// `Sign? Digit+`
pub open spec fn exponent_ok(x: Seq<char>) -> bool {
    unsigned(x).len() > 0 && all_digits(unsigned(x))
}

/// `Number ::= ( Digit+ | Digit+ '.' Digit* | Digit* '.' Digit+ ) Exp?` with
/// `Exp ::= 'e' Sign? Digit+`, letters in either case.
pub open spec fn number_ok(b: Seq<char>) -> bool {
    match find(ascii_lower(b), seq!['e']) {
        None => mantissa_ok(b),
        Some(e) => mantissa_ok(b.take(e)) && exponent_ok(b.skip(e + 1)),
    }
}

/// The texts that `f32::from_str` accepts, per its documented grammar:
/// `Sign? ( 'inf' | 'infinity' | 'nan' | Number )`, letters in either case.
pub open spec fn is_float_literal(s: Seq<char>) -> bool {
    let b = unsigned(s);
    let l = ascii_lower(b);
    l == "inf"@ || l == "infinity"@ || l == "nan"@ || number_ok(b)
}

fn all_digits_in(s: &Vec<char>, from: usize, to: usize) -> (r: bool)
    requires
        from <= to <= s.len(),
    ensures
        r == all_digits(s@.subrange(from as int, to as int)),
{
    let mut i: usize = from;
    while i < to
        invariant
            from <= i <= to <= s.len(),
            forall|j: int| from <= j < i ==> is_digit(s@[j]),
        decreases to - i,
    {
        if !('0' <= s[i] && s[i] <= '9') {
            assert(s@.subrange(from as int, to as int)[i - from] == s@[i as int]);
            return false;
        }
        i += 1;
    }
    assert forall|j: int| 0 <= j < to - from implies is_digit(
        #[trigger] s@.subrange(from as int, to as int)[j],
    ) by {
        assert(s@.subrange(from as int, to as int)[j] == s@[from + j]);
    }
    true
}

fn single(c: char) -> (r: Vec<char>)
    ensures
        r@ == seq![c],
{
    let mut r: Vec<char> = Vec::new();
    r.push(c);
    assert(r@ =~= seq![c]);
    r
}

fn mantissa_ok_in(s: &Vec<char>, from: usize, to: usize) -> (r: bool)
    requires
        from <= to <= s.len(),
    ensures
        r == mantissa_ok(s@.subrange(from as int, to as int)),
{
    let mut m: Vec<char> = Vec::new();
    crate::text::extend_range(&mut m, s, from, to);
    assert(m@ =~= s@.subrange(from as int, to as int));
    match find_chars(&m, &single('.')) {
        None => m.len() > 0 && all_digits_in(&m, 0, m.len()) && {
            assert(m@.subrange(0, m.len() as int) =~= m@);
            true
        },
        Some(p) => {
            assert(m@.subrange(0, p as int) =~= m@.take(p as int));
            assert(m@.subrange(p + 1, m.len() as int) =~= m@.skip(p + 1));
            m.len() > 1 && all_digits_in(&m, 0, p) && all_digits_in(&m, p + 1, m.len())
        },
    }
}

fn is_float_literal_chars(s: &Vec<char>) -> (r: bool)
    ensures
        r == is_float_literal(s@),
{
    let start: usize = if s.len() > 0 && (s[0] == '+' || s[0] == '-') {
        1
    } else {
        0
    };
    let mut b: Vec<char> = Vec::new();
    crate::text::extend_range(&mut b, s, start, s.len());
    assert(b@ =~= unsigned(s@));
    let l = lower_ascii(&b);
    if chars_eq(&l, &str_chars("inf")) || chars_eq(&l, &str_chars("infinity")) || chars_eq(
        &l,
        &str_chars("nan"),
    ) {
        return true;
    }
    match find_chars(&l, &single('e')) {
        None => {
            assert(b@.subrange(0, b.len() as int) =~= b@);
            mantissa_ok_in(&b, 0, b.len())
        },
        Some(e) => {
            assert(b@.subrange(0, e as int) =~= b@.take(e as int));
            let x_start = e + 1;
            let sign: usize = if x_start < b.len() && (b[x_start] == '+' || b[x_start] == '-') {
                1
            } else {
                0
            };
            assert(b@.subrange(x_start + sign, b.len() as int) =~= unsigned(b@.skip(e + 1)));
            mantissa_ok_in(&b, 0, e) && x_start + sign < b.len() && all_digits_in(
                &b,
                x_start + sign,
                b.len(),
            )
        },
    }
}

// ---------------------------------------------------------------------------
// Parsing
// ---------------------------------------------------------------------------
/// A line up to its first `#`, which starts a comment.
pub open spec fn before_comment(line: Seq<char>) -> Seq<char> {
    match find(line, seq!['#']) {
        Some(i) => line.take(i),
        None => line,
    }
}

/// The directive on a line, as its lower-case key and its value, both
/// trimmed; `None` for blank, comment-only and malformed lines (no `:`).
pub open spec fn directive(line: Seq<char>) -> Option<(Seq<char>, Seq<char>)> {
    let content = trim(before_comment(line));
    match find(content, seq![':']) {
        None => None,
        Some(i) => Some((ascii_lower(trim(content.take(i))), trim(content.skip(i + 1)))),
    }
}

/// A group that starts with one agent.
pub open spec fn fresh_group(agent: Seq<char>) -> GroupSpec {
    GroupSpec { agents: seq![agent], disallow: seq![], allow: seq![], crawl_delay: None }
}

/// A group that has no rule yet, so a further `User-agent` line joins it.
pub open spec fn takes_more_agents(g: GroupSpec) -> bool {
    g.disallow.len() == 0 && g.allow.len() == 0 && g.crawl_delay is None
}

/// The groups with the current group appended, if it names an agent.
pub open spec fn flush(groups: Seq<GroupSpec>, current: Option<GroupSpec>) -> Seq<GroupSpec> {
    match current {
        Some(g) => if g.agents.len() > 0 {
            groups.push(g)
        } else {
            groups
        },
        None => groups,
    }
}

/// The parser state after one directive: the finished groups and the group
/// being read. Directives other than `User-agent`, and all directives before
/// the first `User-agent`, change nothing; empty `Disallow`/`Allow` values
/// are ignored.
pub open spec fn apply_directive(
    st: (Seq<GroupSpec>, Option<GroupSpec>),
    key: Seq<char>,
    value: Seq<char>,
) -> (Seq<GroupSpec>, Option<GroupSpec>) {
    let groups = st.0;
    let current = st.1;
    if key == "user-agent"@ {
        match current {
            Some(g) => if takes_more_agents(g) {
                (
                    groups,
                    Some(
                        GroupSpec {
                            agents: g.agents.push(ascii_lower(value)),
                            disallow: g.disallow,
                            allow: g.allow,
                            crawl_delay: g.crawl_delay,
                        },
                    ),
                )
            } else {
                (flush(groups, current), Some(fresh_group(ascii_lower(value))))
            },
            None => (groups, Some(fresh_group(ascii_lower(value)))),
        }
    } else if key == "disallow"@ {
        match current {
            Some(g) => if value.len() > 0 {
                (
                    groups,
                    Some(
                        GroupSpec {
                            agents: g.agents,
                            disallow: g.disallow.push(value),
                            allow: g.allow,
                            crawl_delay: g.crawl_delay,
                        },
                    ),
                )
            } else {
                st
            },
            None => st,
        }
    } else if key == "allow"@ {
        match current {
            Some(g) => if value.len() > 0 {
                (
                    groups,
                    Some(
                        GroupSpec {
                            agents: g.agents,
                            disallow: g.disallow,
                            allow: g.allow.push(value),
                            crawl_delay: g.crawl_delay,
                        },
                    ),
                )
            } else {
                st
            },
            None => st,
        }
    } else if key == "crawl-delay"@ {
        match current {
            Some(g) => (
                groups,
                Some(
                    GroupSpec {
                        agents: g.agents,
                        disallow: g.disallow,
                        allow: g.allow,
                        crawl_delay: if is_float_literal(value) {
                            Some(value)
                        } else {
                            None
                        },
                    },
                ),
            ),
            None => st,
        }
    } else {
        st
    }
}

/// The parser state after one line.
pub open spec fn parse_step(st: (Seq<GroupSpec>, Option<GroupSpec>), line: Seq<char>) -> (
    Seq<GroupSpec>,
    Option<GroupSpec>,
) {
    match directive(line) {
        Some((key, value)) => apply_directive(st, key, value),
        None => st,
    }
}

/// The parser state after the given lines.
pub open spec fn parse_lines(lines: Seq<Seq<char>>) -> (Seq<GroupSpec>, Option<GroupSpec>)
    decreases lines.len(),
{
    if lines.len() == 0 {
        (seq![], None)
    } else {
        parse_step(parse_lines(lines.drop_last()), lines.last())
    }
}

/// The rule groups of a robots.txt text.
pub open spec fn spec_parse(text: Seq<char>) -> Seq<GroupSpec> {
    let st = parse_lines(text_lines(text));
    flush(st.0, st.1)
}

/// The directive on `line` (see `directive`).
fn directive_of(line: &Vec<char>) -> (r: Option<(Vec<char>, Vec<char>)>)
    ensures
        match r {
            Some((k, v)) => directive(line@) == Some((k@, v@)),
            None => directive(line@) is None,
        },
{
    let end = match find_chars(line, &single('#')) {
        Some(i) => i,
        None => line.len(),
    };
    let content = trimmed_range(line, 0, end);
    assert(line@.subrange(0, end as int) =~= before_comment(line@));
    match find_chars(&content, &single(':')) {
        None => None,
        Some(i) => {
            let key = lower_ascii(&trimmed_range(&content, 0, i));
            let value = trimmed_range(&content, i + 1, content.len());
            assert(content@.subrange(0, i as int) =~= content@.take(i as int));
            assert(content@.subrange(i + 1, content.len() as int) =~= content@.skip(i + 1));
            Some((key, value))
        },
    }
}

/// A new group whose only agent is `agent`.
fn new_group(agent: String) -> (g: RuleGroup)
    ensures
        g@ == fresh_group(agent@),
{
    let mut agents: Vec<String> = Vec::new();
    agents.push(agent);
    let g = RuleGroup { agents, disallow: Vec::new(), allow: Vec::new(), crawl_delay: None };
    assert(g@.agents =~= seq![agent@]);
    assert(g@.disallow =~= seq![]);
    assert(g@.allow =~= seq![]);
    g
}

/// Moves the current group, if any, to the end of `groups` when it names an
/// agent, and leaves no current group.
fn flush_group(current: &mut Option<RuleGroup>, groups: &mut Vec<RuleGroup>)
    ensures
        *final(current) is None,
        group_views(final(groups)@) == flush(group_views(old(groups)@), opt_group(*old(current))),
{
    if let Some(group) = current.take() {
        if group.agents.len() > 0 {
            let ghost gv = group@;
            let ghost before = group_views(groups@);
            groups.push(group);
            assert(group_views(groups@) =~= before.push(gv));
        }
    }
}

/// Applies one directive to the parser state (see `apply_directive`).
fn apply(
    groups: &mut Vec<RuleGroup>,
    current: Option<RuleGroup>,
    key: &Vec<char>,
    value: &Vec<char>,
) -> (next: Option<RuleGroup>)
    ensures
        (group_views(final(groups)@), opt_group(next)) == apply_directive(
            (group_views(old(groups)@), opt_group(current)),
            key@,
            value@,
        ),
{
    let ghost st = (group_views(groups@), opt_group(current));
    if chars_eq(key, &str_chars("user-agent")) {
        let agent = string_of(&lower_ascii(value));
        match current {
            Some(mut g) => {
                if g.disallow.len() == 0 && g.allow.len() == 0 && g.crawl_delay.is_none() {
                    let ghost before = g@;
                    g.agents.push(agent);
                    assert(g@.agents =~= before.agents.push(ascii_lower(value@)));
                    Some(g)
                } else {
                    let mut finished = Some(g);
                    flush_group(&mut finished, groups);
                    Some(new_group(agent))
                }
            },
            None => Some(new_group(agent)),
        }
    } else if chars_eq(key, &str_chars("disallow")) {
        match current {
            Some(mut g) => {
                if value.len() > 0 {
                    let ghost before = g@;
                    g.disallow.push(string_of(value));
                    assert(g@.disallow =~= before.disallow.push(value@));
                }
                Some(g)
            },
            None => None,
        }
    } else if chars_eq(key, &str_chars("allow")) {
        match current {
            Some(mut g) => {
                if value.len() > 0 {
                    let ghost before = g@;
                    g.allow.push(string_of(value));
                    assert(g@.allow =~= before.allow.push(value@));
                }
                Some(g)
            },
            None => None,
        }
    } else if chars_eq(key, &str_chars("crawl-delay")) {
        match current {
            Some(mut g) => {
                g.crawl_delay = if is_float_literal_chars(value) {
                    Some(string_of(value))
                } else {
                    None
                };
                Some(g)
            },
            None => None,
        }
    } else {
        current
    }
}

/// Parses robots.txt text into rule groups. Unknown directives and malformed
/// lines are skipped rather than treated as errors: an empty or garbled file
/// simply parses to no groups, which `is_allowed` treats as allow-all.
pub fn parse(text: &str) -> (r: RobotsRules)
    ensures
        r@ == spec_parse(text@),
{
    let chars = str_chars(text);
    let lines = split_lines(&chars);
    let ghost ls = views(lines@);
    let mut groups: Vec<RuleGroup> = Vec::new();
    let mut current: Option<RuleGroup> = None;
    let mut i: usize = 0;
    assert(ls.take(0) =~= Seq::<Seq<char>>::empty());
    assert(group_views(groups@) =~= Seq::<GroupSpec>::empty());
    while i < lines.len()
        invariant
            i <= lines.len(),
            ls == views(lines@),
            ls == text_lines(text@),
            (group_views(groups@), opt_group(current)) == parse_lines(ls.take(i as int)),
        decreases lines.len() - i,
    {
        assert(ls.take(i + 1).drop_last() =~= ls.take(i as int));
        assert(ls.take(i + 1).last() == lines@[i as int]@);
        match directive_of(&lines[i]) {
            Some((key, value)) => {
                current = apply(&mut groups, current, &key, &value);
            },
            None => {},
        }
        i += 1;
    }
    assert(ls.take(lines.len() as int) =~= ls);
    flush_group(&mut current, &mut groups);
    RobotsRules { groups }
}

// ---------------------------------------------------------------------------
// Queries
// ---------------------------------------------------------------------------
/// The predicate "the group lists `agent`".
pub open spec fn lists_agent(agent: Seq<char>) -> spec_fn(GroupSpec) -> bool {
    |g: GroupSpec| g.agents.contains(agent)
}

/// The group that governs `agent`: the first group that lists it (compared
/// in lower case), else the first group that lists `*`, else none.
pub open spec fn group_for(groups: Seq<GroupSpec>, agent: Seq<char>) -> Option<GroupSpec> {
    match first_index(groups, lists_agent(ascii_lower(agent))) {
        Some(i) => Some(groups[i]),
        None => match first_index(groups, lists_agent("*"@)) {
            Some(i) => Some(groups[i]),
            None => None,
        },
    }
}

/// `path` starts with `prefix`.
pub open spec fn starts_with(path: Seq<char>, prefix: Seq<char>) -> bool {
    prefix.len() <= path.len() && path.take(prefix.len() as int) == prefix
}

/// The length of the longest rule that `path` starts with, if any.
pub open spec fn longest_match(rules: Seq<Seq<char>>, path: Seq<char>) -> Option<nat>
    decreases rules.len(),
{
    if rules.len() == 0 {
        None
    } else {
        let rest = longest_match(rules.drop_last(), path);
        let r = rules.last();
        if starts_with(path, r) {
            match rest {
                Some(n) => Some(
                    if n >= r.len() {
                        n
                    } else {
                        r.len()
                    },
                ),
                None => Some(r.len()),
            }
        } else {
            rest
        }
    }
}

/// The decision between the longest matching `Disallow` and `Allow` rules:
/// the longer wins, a tie goes to `Allow`, and no `Disallow` means allowed.
pub open spec fn decide(disallow: Option<nat>, allow: Option<nat>) -> bool {
    match (disallow, allow) {
        (Some(d), Some(a)) => a >= d,
        (Some(_), None) => false,
        _ => true,
    }
}

/// Whether `path` is allowed for `agent` under the groups.
pub open spec fn spec_is_allowed(groups: Seq<GroupSpec>, agent: Seq<char>, path: Seq<char>) -> bool {
    match group_for(groups, agent) {
        None => true,
        Some(g) => decide(longest_match(g.disallow, path), longest_match(g.allow, path)),
    }
}

/// The crawl delay text of the group that governs `agent`.
pub open spec fn spec_crawl_delay(groups: Seq<GroupSpec>, agent: Seq<char>) -> Option<Seq<char>> {
    match group_for(groups, agent) {
        Some(g) => g.crawl_delay,
        None => None,
    }
}

/// Whether `list` holds `item`.
fn holds(list: &Vec<String>, item: &Vec<char>) -> (r: bool)
    ensures
        r == strings(list@).contains(item@),
{
    let ghost v = strings(list@);
    let mut i: usize = 0;
    while i < list.len()
        invariant
            i <= list.len(),
            v == strings(list@),
            forall|j: int| 0 <= j < i ==> v[j] != item@,
        decreases list.len() - i,
    {
        assert(v[i as int] == list@[i as int]@);
        if chars_eq(&str_chars(list[i].as_str()), item) {
            return true;
        }
        i += 1;
    }
    false
}

/// The index of the first group that lists `agent`.
fn first_group_listing(groups: &Vec<RuleGroup>, agent: &Vec<char>) -> (r: Option<usize>)
    ensures
        match r {
            Some(i) => i < groups.len() && first_index(group_views(groups@), lists_agent(agent@))
                == Some(i as int),
            None => first_index(group_views(groups@), lists_agent(agent@)) is None,
        },
{
    let ghost gs = group_views(groups@);
    let ghost p = lists_agent(agent@);
    let mut i: usize = 0;
    while i < groups.len()
        invariant
            i <= groups.len(),
            gs == group_views(groups@),
            p == lists_agent(agent@),
            forall|j: int| 0 <= j < i ==> !p(#[trigger] gs[j]),
        decreases groups.len() - i,
    {
        assert(gs[i as int] == groups@[i as int]@);
        if holds(&groups[i].agents, agent) {
            proof {
                lemma_first_index_is(gs, p, i as int);
            }
            return Some(i);
        }
        i += 1;
    }
    proof {
        lemma_first_index(gs, p);
    }
    None
}

/// The index of the group that governs `agent` (see `group_for`).
fn group_index_for(groups: &Vec<RuleGroup>, agent: &str) -> (r: Option<usize>)
    ensures
        match r {
            Some(i) => i < groups.len() && group_for(group_views(groups@), agent@) == Some(
                groups@[i as int]@,
            ),
            None => group_for(group_views(groups@), agent@) is None,
        },
{
    let lower = lower_ascii(&str_chars(agent));
    match first_group_listing(groups, &lower) {
        Some(i) => Some(i),
        None => first_group_listing(groups, &str_chars("*")),
    }
}

/// The length of the longest rule of `rules` that `path` starts with.
fn longest_match_of(rules: &Vec<String>, path: &Vec<char>) -> (r: Option<usize>)
    ensures
        match r {
            Some(n) => longest_match(strings(rules@), path@) == Some(n as nat),
            None => longest_match(strings(rules@), path@) is None,
        },
{
    let ghost rs = strings(rules@);
    let mut best: Option<usize> = None;
    let mut i: usize = 0;
    assert(rs.take(0) =~= Seq::<Seq<char>>::empty());
    while i < rules.len()
        invariant
            i <= rules.len(),
            rs == strings(rules@),
            match best {
                Some(n) => longest_match(rs.take(i as int), path@) == Some(n as nat),
                None => longest_match(rs.take(i as int), path@) is None,
            },
        decreases rules.len() - i,
    {
        let rule = str_chars(rules[i].as_str());
        assert(rs.take(i + 1).drop_last() =~= rs.take(i as int));
        assert(rs.take(i + 1).last() == rule@);
        let mut matches = rule.len() <= path.len();
        if matches {
            matches = chars_eq(&prefix_of(path, rule.len()), &rule);
        }
        if matches {
            best = match best {
                Some(n) => Some(
                    if n >= rule.len() {
                        n
                    } else {
                        rule.len()
                    },
                ),
                None => Some(rule.len()),
            };
        }
        i += 1;
    }
    assert(rs.take(rules.len() as int) =~= rs);
    best
}

/// The first `n` characters of `s`.
fn prefix_of(s: &Vec<char>, n: usize) -> (r: Vec<char>)
    requires
        n <= s.len(),
    ensures
        r@ == s@.take(n as int),
{
    let mut r: Vec<char> = Vec::new();
    crate::text::extend_range(&mut r, s, 0, n);
    assert(s@.subrange(0, n as int) =~= s@.take(n as int));
    r
}

impl RobotsRules {
    /// True if `path` is allowed for `agent`, per the most specific matching
    /// rule (longest prefix wins, a tie goes to `Allow`) in the group for
    /// `agent`, falling back to the wildcard `*` group, falling back to
    /// allow-all if no group matches.
    pub fn is_allowed(&self, agent: &str, path: &str) -> (r: bool)
        ensures
            r == spec_is_allowed(self@, agent@, path@),
    {
        let i = match group_index_for(&self.groups, agent) {
            Some(i) => i,
            None => return true,
        };
        let group = &self.groups[i];
        let path_chars = str_chars(path);
        let best_disallow = longest_match_of(&group.disallow, &path_chars);
        let best_allow = longest_match_of(&group.allow, &path_chars);
        match (best_disallow, best_allow) {
            (Some(d), Some(a)) => a >= d,
            (Some(_), None) => false,
            _ => true,
        }
    }

    /// The `Crawl-delay` text for `agent`, if the governing group declares a
    /// valid one; it reads as an `f32` with `str::parse`.
    pub fn crawl_delay(&self, agent: &str) -> (r: Option<String>)
        ensures
            opt_string(r) == spec_crawl_delay(self@, agent@),
    {
        match group_index_for(&self.groups, agent) {
            Some(i) => self.groups[i].crawl_delay.clone(),
            None => None,
        }
    }
}


// ---------------------------------------------------------------------------
// Laws
// ---------------------------------------------------------------------------
/// `longest_match` is the length of a longest matching rule, and `None`
/// exactly when no rule matches.
pub proof fn lemma_longest_match(rules: Seq<Seq<char>>, path: Seq<char>)
    ensures
        match longest_match(rules, path) {
            Some(n) => (exists|k: int|
                0 <= k < rules.len() && starts_with(path, #[trigger] rules[k]) && rules[k].len()
                    == n) && forall|k: int|
                0 <= k < rules.len() && starts_with(path, #[trigger] rules[k]) ==> rules[k].len()
                    <= n,
            None => forall|k: int| 0 <= k < rules.len() ==> !starts_with(path, #[trigger] rules[k]),
        },
    decreases rules.len(),
{
    if rules.len() > 0 {
        let init = rules.drop_last();
        let last = rules.len() - 1;
        lemma_longest_match(init, path);
        assert forall|k: int| 0 <= k < last implies rules[k] == init[k] by {}
        assert(rules[last] == rules.last());
        match longest_match(init, path) {
            Some(n) => {
                let k0 = choose|k: int|
                    0 <= k < init.len() && starts_with(path, #[trigger] init[k]) && init[k].len()
                        == n;
                assert(rules[k0] == init[k0]);
            },
            None => {},
        }
    }
}

/// The parser state stays empty over lines that hold no `User-agent`
/// directive.
proof fn lemma_no_agent_lines_parse_to_nothing(lines: Seq<Seq<char>>)
    requires
        forall|j: int| 0 <= j < lines.len() ==> !is_user_agent_line(#[trigger] lines[j]),
    ensures
        parse_lines(lines) == (Seq::<GroupSpec>::empty(), Option::<GroupSpec>::None),
    decreases lines.len(),
{
    if lines.len() > 0 {
        let init = lines.drop_last();
        assert forall|j: int| 0 <= j < init.len() implies !is_user_agent_line(#[trigger] init[j]) by {
            assert(init[j] == lines[j]);
        }
        lemma_no_agent_lines_parse_to_nothing(init);
        assert(!is_user_agent_line(lines[lines.len() - 1]));
    }
}

/// A name or rule as parsing stores it: trimmed, and free of `#` (which
/// starts a comment).
pub open spec fn clean(s: Seq<char>) -> bool {
    trim(s) == s && lacks(s, '#')
}

/// A well-formed rule group: it names at least one agent, its agent names
/// are in lower case, its rules are not empty, its names and rules are
/// trimmed and free of `#`, and its crawl delay, if any, is a number that
/// `f32` parsing accepts.
pub open spec fn group_wf(g: GroupSpec) -> bool {
    &&& g.agents.len() > 0
    &&& forall|i: int|
        0 <= i < g.agents.len() ==> ascii_lower(#[trigger] g.agents[i]) == g.agents[i] && clean(
            g.agents[i],
        )
    &&& forall|i: int|
        0 <= i < g.disallow.len() ==> (#[trigger] g.disallow[i]).len() > 0 && clean(
            g.disallow[i],
        )
    &&& forall|i: int|
        0 <= i < g.allow.len() ==> (#[trigger] g.allow[i]).len() > 0 && clean(g.allow[i])
    &&& g.crawl_delay matches Some(d) ==> is_float_literal(d)
}

/// The value of a directive is trimmed and free of `#`.
proof fn lemma_directive_value_clean(line: Seq<char>)
    ensures
        directive(line) matches Some((_, v)) ==> is_trimmed(v) && lacks(v, '#'),
{
    let before = before_comment(line);
    lemma_find(line, seq!['#']);
    let h: int = match find(line, seq!['#']) {
        Some(i) => i,
        None => line.len() as int,
    };
    assert(before =~= line.subrange(0, h));
    assert forall|j: int| 0 <= j < h implies line[j] != '#' by {
        if line[j] == '#' {
            assert(line.subrange(j, j + 1) =~= seq!['#']);
            assert(occurs_at(line, seq!['#'], j));
        }
    }
    assert(lacks(before, '#')) by {
        assert forall|j: int| 0 <= j < before.len() implies before[j] != '#' by {
            assert(before[j] == line[j]);
        }
    }
    lemma_trim_is_subrange(before);
    let (a, b) = choose|a: int, b: int|
        0 <= a <= b <= before.len() && trim(before) == before.subrange(a, b);
    let content = trim(before);
    lemma_lacks_subrange(before, '#', a, b);
    lemma_find(content, seq![':']);
    if find(content, seq![':']) is Some {
        let i = find(content, seq![':'])->0;
        let raw = content.skip(i + 1);
        assert(raw =~= content.subrange(i + 1, content.len() as int));
        lemma_lacks_subrange(content, '#', i + 1, content.len() as int);
        lemma_trim_is_subrange(raw);
        let (c, d) = choose|c: int, d: int|
            0 <= c <= d <= raw.len() && trim(raw) == raw.subrange(c, d);
        lemma_lacks_subrange(raw, '#', c, d);
        lemma_trim_is_trimmed(raw);
    }
}

/// The parser state holds well-formed groups only.
pub open spec fn state_wf(st: (Seq<GroupSpec>, Option<GroupSpec>)) -> bool {
    &&& forall|i: int| 0 <= i < st.0.len() ==> group_wf(#[trigger] st.0[i])
    &&& st.1 matches Some(g) ==> group_wf(g)
}

proof fn lemma_apply_directive_wf(
    st: (Seq<GroupSpec>, Option<GroupSpec>),
    key: Seq<char>,
    value: Seq<char>,
)
    requires
        state_wf(st),
        is_trimmed(value),
        lacks(value, '#'),
    ensures
        state_wf(apply_directive(st, key, value)),
{
    lemma_ascii_lower_idempotent(value);
    lemma_ascii_lower_keeps(value);
    lemma_trim_of_trimmed(value);
    lemma_trim_of_trimmed(ascii_lower(value));
    let next = apply_directive(st, key, value);
    if key == "user-agent"@ {
        match st.1 {
            Some(g) => {
                if takes_more_agents(g) {
                    let g2 = next.1->0;
                    assert forall|i: int| 0 <= i < g2.agents.len() implies ascii_lower(
                        #[trigger] g2.agents[i],
                    ) == g2.agents[i] by {
                        if i < g.agents.len() {
                            assert(g2.agents[i] == g.agents[i]);
                        }
                    }
                } else {
                    assert forall|i: int| 0 <= i < next.0.len() implies group_wf(#[trigger] next.0[i]) by {
                        if i < st.0.len() {
                            assert(next.0[i] == st.0[i]);
                        }
                    }
                    let g2 = next.1->0;
                    assert(g2.agents[0] == ascii_lower(value));
                }
            },
            None => {
                let g2 = next.1->0;
                assert(g2.agents[0] == ascii_lower(value));
            },
        }
    } else if key == "disallow"@ {
        if st.1 is Some && value.len() > 0 {
            let g = st.1->0;
            let g2 = next.1->0;
            assert forall|i: int| 0 <= i < g2.disallow.len() implies (#[trigger] g2.disallow[i]).len()
                > 0 by {
                if i < g.disallow.len() {
                    assert(g2.disallow[i] == g.disallow[i]);
                }
            }
        }
    } else if key == "allow"@ {
        if st.1 is Some && value.len() > 0 {
            let g = st.1->0;
            let g2 = next.1->0;
            assert forall|i: int| 0 <= i < g2.allow.len() implies (#[trigger] g2.allow[i]).len()
                > 0 by {
                if i < g.allow.len() {
                    assert(g2.allow[i] == g.allow[i]);
                }
            }
        }
    }
}

proof fn lemma_parse_lines_wf(lines: Seq<Seq<char>>)
    ensures
        state_wf(parse_lines(lines)),
    decreases lines.len(),
{
    if lines.len() > 0 {
        lemma_parse_lines_wf(lines.drop_last());
        let st = parse_lines(lines.drop_last());
        lemma_directive_value_clean(lines.last());
        match directive(lines.last()) {
            Some((key, value)) => lemma_apply_directive_wf(st, key, value),
            None => {},
        }
    }
}

/// Every group that parsing yields is well formed (see `group_wf`), whatever
/// the text.
pub proof fn lemma_parsed_groups_are_well_formed(text: Seq<char>)
    ensures
        forall|i: int| 0 <= i < spec_parse(text).len() ==> group_wf(#[trigger] spec_parse(text)[i]),
{
    let st = parse_lines(text_lines(text));
    lemma_parse_lines_wf(text_lines(text));
    assert forall|i: int| 0 <= i < spec_parse(text).len() implies group_wf(
        #[trigger] spec_parse(text)[i],
    ) by {
        if i < st.0.len() {
            assert(spec_parse(text)[i] == st.0[i]);
        }
    }
}

/// A line whose directive is `User-agent`.
pub open spec fn is_user_agent_line(line: Seq<char>) -> bool {
    match directive(line) {
        Some((key, _)) => key == "user-agent"@,
        None => false,
    }
}

/// Text in which no line is a `User-agent` directive (empty, comment-only
/// or garbled text among it) parses to no groups.
pub proof fn lemma_text_without_user_agent_parses_to_no_groups(text: Seq<char>)
    requires
        forall|j: int|
            0 <= j < text_lines(text).len() ==> !is_user_agent_line(#[trigger] text_lines(text)[j]),
    ensures
        spec_parse(text) == Seq::<GroupSpec>::empty(),
{
    lemma_no_agent_lines_parse_to_nothing(text_lines(text));
}

/// With no rule groups every path is allowed for every agent, and no crawl
/// delay applies.
pub proof fn lemma_no_groups_allows_everything(groups: Seq<GroupSpec>, agent: Seq<char>, path: Seq<char>)
    requires
        groups.len() == 0,
    ensures
        spec_is_allowed(groups, agent, path),
        spec_crawl_delay(groups, agent) is None,
{
}

/// An empty (missing) robots.txt allows every path for every agent.
pub proof fn lemma_empty_robots_txt_allows_everything(agent: Seq<char>, path: Seq<char>)
    ensures
        spec_parse(Seq::<char>::empty()) == Seq::<GroupSpec>::empty(),
        spec_is_allowed(spec_parse(Seq::<char>::empty()), agent, path),
{
    assert(text_lines(Seq::<char>::empty()) =~= Seq::<Seq<char>>::empty());
}

/// In the group that governs the agent, an `Allow` rule at least as long as
/// every matching `Disallow` rule allows the path: the longest match wins,
/// and a tie goes to `Allow`.
pub proof fn lemma_longest_allow_wins(
    groups: Seq<GroupSpec>,
    agent: Seq<char>,
    path: Seq<char>,
    g: GroupSpec,
    a: int,
)
    requires
        group_for(groups, agent) == Some(g),
        0 <= a < g.allow.len(),
        starts_with(path, g.allow[a]),
        forall|k: int|
            0 <= k < g.disallow.len() && starts_with(path, #[trigger] g.disallow[k])
                ==> g.disallow[k].len() <= g.allow[a].len(),
    ensures
        spec_is_allowed(groups, agent, path),
{
    lemma_longest_match(g.allow, path);
    lemma_longest_match(g.disallow, path);
    if longest_match(g.disallow, path) is Some {
        let d = longest_match(g.disallow, path)->0;
        let k0 = choose|k: int|
            0 <= k < g.disallow.len() && starts_with(path, #[trigger] g.disallow[k])
                && g.disallow[k].len() == d;
        assert(g.disallow[k0].len() <= g.allow[a].len());
    }
}

/// In the group that governs the agent, a `Disallow` rule longer than every
/// matching `Allow` rule blocks the path.
pub proof fn lemma_longer_disallow_blocks(
    groups: Seq<GroupSpec>,
    agent: Seq<char>,
    path: Seq<char>,
    g: GroupSpec,
    d: int,
)
    requires
        group_for(groups, agent) == Some(g),
        0 <= d < g.disallow.len(),
        starts_with(path, g.disallow[d]),
        forall|k: int|
            0 <= k < g.allow.len() && starts_with(path, #[trigger] g.allow[k]) ==> g.allow[k].len()
                < g.disallow[d].len(),
    ensures
        !spec_is_allowed(groups, agent, path),
{
    lemma_longest_match(g.allow, path);
    lemma_longest_match(g.disallow, path);
    if longest_match(g.allow, path) is Some {
        let n = longest_match(g.allow, path)->0;
        let k0 = choose|k: int|
            0 <= k < g.allow.len() && starts_with(path, #[trigger] g.allow[k]) && g.allow[k].len()
                == n;
        assert(g.allow[k0].len() < g.disallow[d].len());
    }
}

/// A path that no `Disallow` rule of the governing group matches is allowed.
pub proof fn lemma_unmatched_path_is_allowed(
    groups: Seq<GroupSpec>,
    agent: Seq<char>,
    path: Seq<char>,
    g: GroupSpec,
)
    requires
        group_for(groups, agent) == Some(g),
        forall|k: int| 0 <= k < g.disallow.len() ==> !starts_with(path, #[trigger] g.disallow[k]),
    ensures
        spec_is_allowed(groups, agent, path),
{
    lemma_longest_match(g.disallow, path);
    if longest_match(g.disallow, path) is Some {
        let d = longest_match(g.disallow, path)->0;
        let k0 = choose|k: int|
            0 <= k < g.disallow.len() && starts_with(path, #[trigger] g.disallow[k])
                && g.disallow[k].len() == d;
        assert(!starts_with(path, g.disallow[k0]));
    }
}

/// A group that names the agent governs it, ahead of any wildcard group: the
/// governing group is the first one that names it.
pub proof fn lemma_named_group_beats_wildcard(groups: Seq<GroupSpec>, agent: Seq<char>, i: int)
    requires
        0 <= i < groups.len(),
        groups[i].agents.contains(ascii_lower(agent)),
    ensures
        exists|j: int|
            0 <= j < groups.len() && group_for(groups, agent) == Some(#[trigger] groups[j])
                && groups[j].agents.contains(ascii_lower(agent)) && forall|k: int|
                0 <= k < j ==> !groups[k].agents.contains(ascii_lower(agent)),
{
    let p = lists_agent(ascii_lower(agent));
    lemma_first_index(groups, p);
    assert(p(groups[i]));
    let j = first_index(groups, p)->0;
    assert forall|k: int| 0 <= k < j implies !groups[k].agents.contains(ascii_lower(agent)) by {
        assert(!p(groups[k]));
    }
    assert(group_for(groups, agent) == Some(groups[j]));
}

/// An agent that no group names is governed by the first wildcard group.
pub proof fn lemma_wildcard_group_is_the_fallback(groups: Seq<GroupSpec>, agent: Seq<char>, i: int)
    requires
        forall|k: int| 0 <= k < groups.len() ==> !(#[trigger] groups[k]).agents.contains(
            ascii_lower(agent),
        ),
        0 <= i < groups.len(),
        groups[i].agents.contains("*"@),
    ensures
        exists|j: int|
            0 <= j < groups.len() && group_for(groups, agent) == Some(#[trigger] groups[j])
                && groups[j].agents.contains("*"@) && forall|k: int|
                0 <= k < j ==> !groups[k].agents.contains("*"@),
{
    let p = lists_agent(ascii_lower(agent));
    let w = lists_agent("*"@);
    lemma_first_index(groups, p);
    if first_index(groups, p) is Some {
        let k = first_index(groups, p)->0;
        assert(p(groups[k]));
    }
    lemma_first_index(groups, w);
    assert(w(groups[i]));
    let j = first_index(groups, w)->0;
    assert forall|k: int| 0 <= k < j implies !groups[k].agents.contains("*"@) by {
        assert(!w(groups[k]));
    }
    assert(group_for(groups, agent) == Some(groups[j]));
}

/// Agent names are compared without regard to ASCII case.
pub proof fn lemma_agent_case_is_ignored(
    groups: Seq<GroupSpec>,
    a1: Seq<char>,
    a2: Seq<char>,
    path: Seq<char>,
)
    requires
        ascii_lower(a1) == ascii_lower(a2),
    ensures
        spec_is_allowed(groups, a1, path) == spec_is_allowed(groups, a2, path),
        spec_crawl_delay(groups, a1) == spec_crawl_delay(groups, a2),
{
}

/// A line without a colon is malformed and skipped: it leaves the parser
/// state unchanged.
pub proof fn lemma_line_without_colon_is_skipped(
    st: (Seq<GroupSpec>, Option<GroupSpec>),
    line: Seq<char>,
)
    requires
        !contains(line, seq![':']),
    ensures
        directive(line) is None,
        parse_step(st, line) == st,
{
    let before = before_comment(line);
    let h: int = match find(line, seq!['#']) {
        Some(i) => i,
        None => line.len() as int,
    };
    lemma_find(line, seq!['#']);
    assert(before =~= line.subrange(0, h));
    lemma_trim_is_subrange(before);
    let (a, b) = choose|a: int, b: int|
        0 <= a <= b <= before.len() && trim(before) == before.subrange(a, b);
    let content = trim(before);
    lemma_find(content, seq![':']);
    if find(content, seq![':']) is Some {
        let i = find(content, seq![':'])->0;
        assert(content.subrange(i, i + 1)[0] == content[i]);
        assert(content[i] == line[a + i]);
        assert(line.subrange(a + i, a + i + 1) =~= seq![':']);
        assert(occurs_at(line, seq![':'], a + i));
    }
}

/// A directive other than `User-agent`, `Disallow`, `Allow` and
/// `Crawl-delay` is skipped: it leaves the parser state unchanged.
pub proof fn lemma_unknown_directive_is_skipped(
    st: (Seq<GroupSpec>, Option<GroupSpec>),
    line: Seq<char>,
    key: Seq<char>,
    value: Seq<char>,
)
    requires
        directive(line) == Some((key, value)),
        key != "user-agent"@,
        key != "disallow"@,
        key != "allow"@,
        key != "crawl-delay"@,
    ensures
        parse_step(st, line) == st,
{
}

/// A comment does not change what a line says: the text from the first `#`
/// on is ignored.
pub proof fn lemma_comment_is_ignored(line: Seq<char>, comment: Seq<char>)
    requires
        !contains(line, seq!['#']),
    ensures
        directive(line + seq!['#'] + comment) == directive(line),
{
    let full = line + seq!['#'] + comment;
    assert(full.subrange(line.len() as int, line.len() + 1int) =~= seq!['#']);
    assert forall|j: int| 0 <= j < line.len() implies !occurs_at(full, seq!['#'], j) by {
        if occurs_at(full, seq!['#'], j) {
            assert(full.subrange(j, j + 1)[0] == full[j]);
            assert(line.subrange(j, j + 1) =~= seq!['#']);
            assert(occurs_at(line, seq!['#'], j));
        }
    }
    lemma_find_first(full, seq!['#'], line.len() as int);
    assert(full.take(line.len() as int) =~= line);
    assert(find(line, seq!['#']) is None);
}


/// `rule` is a prefix of `path`: `path` begins with exactly the characters
/// of `rule`.
pub open spec fn is_prefix_of(rule: Seq<char>, path: Seq<char>) -> bool {
    rule.len() <= path.len() && path.subrange(0, rule.len() as int) == rule
}

/// Group `i` governs `agent`: it is the first group that lists the agent's
/// name in lower case, or, when no group lists that name, the first group
/// that lists `*`.
pub open spec fn governs(groups: Seq<GroupSpec>, agent: Seq<char>, i: int) -> bool {
    let name = ascii_lower(agent);
    &&& 0 <= i < groups.len()
    &&& {
        ||| groups[i].agents.contains(name) && forall|j: int|
            0 <= j < i ==> !(#[trigger] groups[j]).agents.contains(name)
        ||| (forall|j: int| 0 <= j < groups.len() ==> !(#[trigger] groups[j]).agents.contains(name))
            && groups[i].agents.contains("*"@) && forall|j: int|
            0 <= j < i ==> !(#[trigger] groups[j]).agents.contains("*"@)
    }
}

proof fn lemma_governs_is_group_for(groups: Seq<GroupSpec>, agent: Seq<char>, i: int)
    requires
        governs(groups, agent, i),
    ensures
        group_for(groups, agent) == Some(groups[i]),
{
    let name = ascii_lower(agent);
    let p = lists_agent(name);
    let w = lists_agent("*"@);
    assert forall|j: int| 0 <= j < groups.len() implies p(#[trigger] groups[j]) == groups[j].agents.contains(name) && w(groups[j]) == groups[j].agents.contains("*"@) by {}
    if groups[i].agents.contains(name) && forall|j: int|
        0 <= j < i ==> !(#[trigger] groups[j]).agents.contains(name) {
        lemma_first_index_is(groups, p, i);
    } else {
        lemma_first_index(groups, p);
        lemma_first_index_is(groups, w, i);
    }
}

/// The rules of a group decide a path by prefix: the path is allowed exactly
/// when every `Disallow` rule that is a prefix of it is matched by an
/// `Allow` rule that is a prefix of it and at least as long.
proof fn lemma_decide_by_prefixes(g: GroupSpec, path: Seq<char>)
    ensures
        decide(longest_match(g.disallow, path), longest_match(g.allow, path)) <==> (forall|d: int|
            0 <= d < g.disallow.len() && is_prefix_of(#[trigger] g.disallow[d], path) ==> exists|
                a: int,
            |
                0 <= a < g.allow.len() && is_prefix_of(#[trigger] g.allow[a], path)
                    && g.allow[a].len() >= g.disallow[d].len()),
{
    lemma_longest_match(g.disallow, path);
    lemma_longest_match(g.allow, path);
    assert forall|r: Seq<char>| starts_with(path, r) == is_prefix_of(r, path) by {}
    match (longest_match(g.disallow, path), longest_match(g.allow, path)) {
        (Some(dn), Some(an)) => {
            let kd = choose|k: int|
                0 <= k < g.disallow.len() && starts_with(path, #[trigger] g.disallow[k])
                    && g.disallow[k].len() == dn;
            let ka = choose|k: int|
                0 <= k < g.allow.len() && starts_with(path, #[trigger] g.allow[k])
                    && g.allow[k].len() == an;
            if an >= dn {
                assert forall|d: int|
                    0 <= d < g.disallow.len() && is_prefix_of(#[trigger] g.disallow[d], path)
                        implies exists|a: int|
                    0 <= a < g.allow.len() && is_prefix_of(#[trigger] g.allow[a], path)
                        && g.allow[a].len() >= g.disallow[d].len() by {
                    assert(starts_with(path, g.disallow[d]));
                    assert(is_prefix_of(g.allow[ka], path));
                }
            } else {
                assert(is_prefix_of(g.disallow[kd], path));
                if exists|a: int|
                    0 <= a < g.allow.len() && is_prefix_of(#[trigger] g.allow[a], path)
                        && g.allow[a].len() >= g.disallow[kd].len() {
                    let a = choose|a: int|
                        0 <= a < g.allow.len() && is_prefix_of(#[trigger] g.allow[a], path)
                            && g.allow[a].len() >= g.disallow[kd].len();
                    assert(starts_with(path, g.allow[a]));
                }
            }
        },
        (Some(dn), None) => {
            let kd = choose|k: int|
                0 <= k < g.disallow.len() && starts_with(path, #[trigger] g.disallow[k])
                    && g.disallow[k].len() == dn;
            assert(is_prefix_of(g.disallow[kd], path));
            if exists|a: int|
                0 <= a < g.allow.len() && is_prefix_of(#[trigger] g.allow[a], path)
                    && g.allow[a].len() >= g.disallow[kd].len() {
                let a = choose|a: int|
                    0 <= a < g.allow.len() && is_prefix_of(#[trigger] g.allow[a], path)
                        && g.allow[a].len() >= g.disallow[kd].len();
                assert(starts_with(path, g.allow[a]));
            }
        },
        (None, _) => {
            assert forall|d: int|
                0 <= d < g.disallow.len() && is_prefix_of(#[trigger] g.disallow[d], path)
                    implies false by {
                assert(starts_with(path, g.disallow[d]));
            }
        },
    }
}

/// What `is_allowed` and `crawl_delay` answer, said through the group that
/// governs the agent (see `governs`): a path is allowed exactly when every
/// `Disallow` rule of that group that is a prefix of the path is matched by
/// an `Allow` rule of the group that is a prefix of the path and at least as
/// long (the longest prefix wins, a tie goes to `Allow`); a rule that occurs
/// elsewhere in the path does not count. The crawl delay is that group's.
pub proof fn lemma_governing_group_decides(
    groups: Seq<GroupSpec>,
    agent: Seq<char>,
    path: Seq<char>,
    i: int,
)
    requires
        governs(groups, agent, i),
    ensures
        spec_is_allowed(groups, agent, path) <==> (forall|d: int|
            0 <= d < groups[i].disallow.len() && is_prefix_of(
                #[trigger] groups[i].disallow[d],
                path,
            ) ==> exists|a: int|
                0 <= a < groups[i].allow.len() && is_prefix_of(#[trigger] groups[i].allow[a], path)
                    && groups[i].allow[a].len() >= groups[i].disallow[d].len()),
        spec_crawl_delay(groups, agent) == groups[i].crawl_delay,
{
    lemma_governs_is_group_for(groups, agent, i);
    lemma_decide_by_prefixes(groups[i], path);
}

/// When no group lists the agent's lower-cased name or `*`, every path is
/// allowed and no crawl delay applies.
pub proof fn lemma_ungoverned_agent_is_unrestricted(
    groups: Seq<GroupSpec>,
    agent: Seq<char>,
    path: Seq<char>,
)
    requires
        forall|j: int|
            0 <= j < groups.len() ==> !(#[trigger] groups[j]).agents.contains(ascii_lower(agent))
                && !groups[j].agents.contains("*"@),
    ensures
        spec_is_allowed(groups, agent, path),
        spec_crawl_delay(groups, agent) is None,
{
    let p = lists_agent(ascii_lower(agent));
    let w = lists_agent("*"@);
    assert forall|j: int| 0 <= j < groups.len() implies !p(#[trigger] groups[j]) && !w(groups[j]) by {}
    lemma_first_index(groups, p);
    lemma_first_index(groups, w);
}

/// A directive value as the laws below write one: not empty, trimmed, on one
/// line, and without `#`.
pub open spec fn plain_value(v: Seq<char>) -> bool {
    &&& v.len() > 0
    &&& is_trimmed(v)
    &&& lacks(v, '#')
    &&& lacks(v, '\n')
}

/// The directive on a line `key: value`.
proof fn lemma_directive_of_line(key: Seq<char>, v: Seq<char>)
    requires
        plain_value(key),
        lacks(key, ':'),
        plain_value(v),
    ensures
        directive(key + seq![':', ' '] + v) == Some((ascii_lower(key), v)),
{
    let line = key + seq![':', ' '] + v;
    let k = key.len() as int;
    assert(lacks(line, '#'));
    lemma_find(line, seq!['#']);
    if find(line, seq!['#']) is Some {
        let h = find(line, seq!['#'])->0;
        assert(line.subrange(h, h + 1)[0] == line[h]);
    }
    assert(before_comment(line) == line);
    assert(line[0] == key[0]);
    assert(line.last() == v.last());
    lemma_trim_of_trimmed(line);
    assert(line.subrange(k, k + 1) =~= seq![':']);
    assert forall|j: int| 0 <= j < k implies !occurs_at(line, seq![':'], j) by {
        assert(line.subrange(j, j + 1)[0] == line[j]);
        assert(line[j] == key[j]);
    }
    lemma_find_first(line, seq![':'], k);
    assert(line.take(k) =~= key);
    lemma_trim_of_trimmed(key);
    let rest = line.skip(k + 1);
    assert(rest =~= seq![' '] + v);
    assert(rest.drop_first() =~= v);
    assert(is_ws(rest[0]));
    assert(trim_start(rest) == trim_start(v));
    assert(trim_start(v) == v);
    lemma_trim_of_trimmed(v);
}

/// Parsing keeps `Disallow` and `Allow` values exactly as written (after
/// trimming), in their own case; only the agent name is lower-cased. The
/// text `User-agent: a`, `Disallow: d`, `Allow: w` parses to the one group
/// for `a` in lower case with the one `Disallow` rule `d` and the one
/// `Allow` rule `w`.
pub proof fn lemma_rule_values_are_kept_as_written(a: Seq<char>, d: Seq<char>, w: Seq<char>)
    requires
        plain_value(a),
        plain_value(d),
        plain_value(w),
    ensures
        spec_parse(join_lines(seq!["User-agent: "@ + a, "Disallow: "@ + d, "Allow: "@ + w]))
            == seq![
            GroupSpec {
                agents: seq![ascii_lower(a)],
                disallow: seq![d],
                allow: seq![w],
                crawl_delay: None,
            },
        ],
{
    reveal_strlit("User-agent: ");
    reveal_strlit("Disallow: ");
    reveal_strlit("Allow: ");
    reveal_strlit("User-agent");
    reveal_strlit("Disallow");
    reveal_strlit("Allow");
    reveal_strlit("user-agent");
    reveal_strlit("disallow");
    reveal_strlit("allow");
    reveal_strlit("crawl-delay");
    let ku = "User-agent"@;
    let kd = "Disallow"@;
    let ka = "Allow"@;
    let l0 = "User-agent: "@ + a;
    let l1 = "Disallow: "@ + d;
    let l2 = "Allow: "@ + w;
    assert(l0 =~= ku + seq![':', ' '] + a);
    assert(l1 =~= kd + seq![':', ' '] + d);
    assert(l2 =~= ka + seq![':', ' '] + w);
    assert(plain_value(ku));
    assert(plain_value(kd));
    assert(plain_value(ka));
    lemma_directive_of_line(ku, a);
    lemma_directive_of_line(kd, d);
    lemma_directive_of_line(ka, w);
    assert(ascii_lower(ku) =~= "user-agent"@);
    assert(ascii_lower(kd) =~= "disallow"@);
    assert(ascii_lower(ka) =~= "allow"@);
    let ls = seq![l0, l1, l2];
    assert forall|j: int| 0 <= j < ls.len() implies no_newline(#[trigger] ls[j]) by {
        assert(ls[j][ls[j].len() - 1] != '\n');
    }
    assert(no_trailing_cr(l0));
    assert(no_trailing_cr(l1));
    lemma_lines_of_join(ls);
    let first = ls.drop_last().drop_last();
    assert(first.drop_last() =~= Seq::<Seq<char>>::empty());
    assert(first.last() == l0);
    assert(parse_lines(first.drop_last()) == (Seq::<GroupSpec>::empty(), Option::<GroupSpec>::None));
    assert(directive(l0) == Some(("user-agent"@, a)));
    assert(parse_step((Seq::<GroupSpec>::empty(), Option::<GroupSpec>::None), l0) == (
        Seq::<GroupSpec>::empty(),
        Some(fresh_group(ascii_lower(a))),
    ));
    assert(ls.drop_last().last() == l1);
    let g0 = fresh_group(ascii_lower(a));
    assert(parse_lines(ls.drop_last().drop_last()) == (Seq::<GroupSpec>::empty(), Some(g0)));
    let g1 = GroupSpec { agents: g0.agents, disallow: seq![d], allow: seq![], crawl_delay: None };
    assert(g0.disallow.push(d) =~= seq![d]);
    assert(parse_lines(ls.drop_last()) == (Seq::<GroupSpec>::empty(), Some(g1)));
    let g2 = GroupSpec { agents: g0.agents, disallow: seq![d], allow: seq![w], crawl_delay: None };
    assert(g1.allow.push(w) =~= seq![w]);
    assert(parse_lines(ls) == (Seq::<GroupSpec>::empty(), Some(g2)));
    assert(Seq::<GroupSpec>::empty().push(g2) =~= seq![g2]);
}

/// Wherever it stands in a file, a `Disallow: v` or `Allow: v` line inside a
/// group adds `v` to that group's list exactly as written, in its own case,
/// and changes nothing else.
pub proof fn lemma_rule_line_adds_its_value(
    st: (Seq<GroupSpec>, Option<GroupSpec>),
    v: Seq<char>,
)
    requires
        st.1 is Some,
        plain_value(v),
    ensures
        ({
            let g = st.1->0;
            &&& parse_step(st, "Disallow: "@ + v) == (
                st.0,
                Some(
                    GroupSpec {
                        agents: g.agents,
                        disallow: g.disallow.push(v),
                        allow: g.allow,
                        crawl_delay: g.crawl_delay,
                    },
                ),
            )
            &&& parse_step(st, "Allow: "@ + v) == (
                st.0,
                Some(
                    GroupSpec {
                        agents: g.agents,
                        disallow: g.disallow,
                        allow: g.allow.push(v),
                        crawl_delay: g.crawl_delay,
                    },
                ),
            )
        }),
{
    reveal_strlit("Disallow: ");
    reveal_strlit("Allow: ");
    reveal_strlit("Disallow");
    reveal_strlit("Allow");
    reveal_strlit("user-agent");
    reveal_strlit("disallow");
    reveal_strlit("allow");
    let kd = "Disallow"@;
    let ka = "Allow"@;
    assert("Disallow: "@ + v =~= kd + seq![':', ' '] + v);
    assert("Allow: "@ + v =~= ka + seq![':', ' '] + v);
    assert(plain_value(kd));
    assert(plain_value(ka));
    lemma_directive_of_line(kd, v);
    lemma_directive_of_line(ka, v);
    assert(ascii_lower(kd) =~= "disallow"@);
    assert(ascii_lower(ka) =~= "allow"@);
}

} // verus!
