//! Static analysis of pasted scraper source for politeness signals: a
//! declared `User-Agent` and some form of rate limiting between requests.

use vstd::prelude::*;
use crate::json::{
    lemma_encode_has_no_raw_control_chars, lemma_no_control_concat, lemma_plain_encode, no_control,
    plain, push_encoded, spec_encode,
};
use crate::json_value::{
    items_text, items_wf, lemma_items_text_back, lemma_json_reads_back,
    members_text, members_wf, number_wf, parse_json, to_text, value_wf, JsonValue,
};
use crate::text::{
    ascii_lower, contains, contains_any, decimal, digit_char, first_index, first_line_mentioning, has_any,
    lemma_decimal_digits, lemma_first_index, lemma_first_index_is, lower_ascii, mentions_any,
    push_decimal, split_lines, str_chars, text_lines, views,
};

verus! {

/// The overall politeness verdict.
#[derive(Debug, Clone, Copy, PartialEq, Eq, Structural)]
pub enum Verdict {
    Green,
    Yellow,
    Red,
}

impl Verdict {
    /// The lower-case name of the verdict, as it appears in reports.
    pub open spec fn name(self) -> Seq<char> {
        match self {
            Verdict::Green => "green"@,
            Verdict::Yellow => "yellow"@,
            Verdict::Red => "red"@,
        }
    }

    /// The name of the verdict as the reports spell it.
    pub fn to_string(&self) -> (r: String)
        ensures
            r@ == self.name(),
    {
        match self {
            Verdict::Green => String::from_str("green"),
            Verdict::Yellow => String::from_str("yellow"),
            Verdict::Red => String::from_str("red"),
        }
    }
}

/// One politeness problem, attached to a 1-based source line.
#[derive(Debug, Clone)]
pub struct Finding {
    pub line: usize,
    pub message: String,
}

impl View for Finding {
    type V = (usize, Seq<char>);

    open spec fn view(&self) -> (usize, Seq<char>) {
        (self.line, self.message@)
    }
}

/// The verdict together with the findings that led to it.
#[derive(Debug, Clone)]
pub struct PolitenessScore {
    pub verdict: Verdict,
    pub findings: Vec<Finding>,
}

impl View for PolitenessScore {
    type V = (Verdict, Seq<(usize, Seq<char>)>);

    open spec fn view(&self) -> (Verdict, Seq<(usize, Seq<char>)>) {
        (self.verdict, self.findings@.map_values(|f: Finding| f@))
    }
}

pub const MSG_UNRECOGNIZED: &'static str = "couldn't recognize a request-library pattern in this source \u{2014} verify User-Agent and rate limiting manually";

pub const MSG_NO_USER_AGENT: &'static str = "no User-Agent header found \u{2014} scrapers should identify themselves";

pub const MSG_DEFAULT_USER_AGENT: &'static str = "User-Agent looks like a request library's default string \u{2014} set a real, distinguishing identifier instead";

pub const MSG_NO_RATE_LIMIT: &'static str = "no rate limiting or backoff detected between requests";

/// Text that signals some form of rate limiting or backoff.
pub open spec fn backoff_signals() -> Seq<Seq<char>> {
    seq![
        "time.sleep"@,
        "asyncio.sleep"@,
        "sleep("@,
        "setTimeout"@,
        "RateLimiter"@,
        "backoff"@,
        "tenacity"@,
        "@retry"@,
        "exponential_backoff"@,
    ]
}

/// Text that signals a declared User-Agent.
pub open spec fn user_agent_signals() -> Seq<Seq<char>> {
    seq!["User-Agent"@, "user_agent"@, "user-agent"@]
}

/// Lower-case fragments of the User-Agent strings that request libraries send
/// when the caller never overrides them.
pub open spec fn default_user_agent_signals() -> Seq<Seq<char>> {
    seq![
        "python-requests"@,
        "node-fetch"@,
        "go-http-client"@,
        "okhttp"@,
        "curl/"@,
        "wget/"@,
        "postmanruntime"@,
    ]
}

/// Text that signals an outbound request call.
pub open spec fn request_signals() -> Seq<Seq<char>> {
    seq![".get("@, ".post("@, "fetch("@, "urlopen("@, "requests."@]
}

fn backoff_signal_words() -> (r: Vec<Vec<char>>)
    ensures
        views(r@) == backoff_signals(),
{
    let mut r: Vec<Vec<char>> = Vec::new();
    r.push(str_chars("time.sleep"));
    r.push(str_chars("asyncio.sleep"));
    r.push(str_chars("sleep("));
    r.push(str_chars("setTimeout"));
    r.push(str_chars("RateLimiter"));
    r.push(str_chars("backoff"));
    r.push(str_chars("tenacity"));
    r.push(str_chars("@retry"));
    r.push(str_chars("exponential_backoff"));
    assert(views(r@) =~= backoff_signals());
    r
}

fn user_agent_signal_words() -> (r: Vec<Vec<char>>)
    ensures
        views(r@) == user_agent_signals(),
{
    let mut r: Vec<Vec<char>> = Vec::new();
    r.push(str_chars("User-Agent"));
    r.push(str_chars("user_agent"));
    r.push(str_chars("user-agent"));
    assert(views(r@) =~= user_agent_signals());
    r
}

fn default_user_agent_signal_words() -> (r: Vec<Vec<char>>)
    ensures
        views(r@) == default_user_agent_signals(),
{
    let mut r: Vec<Vec<char>> = Vec::new();
    r.push(str_chars("python-requests"));
    r.push(str_chars("node-fetch"));
    r.push(str_chars("go-http-client"));
    r.push(str_chars("okhttp"));
    r.push(str_chars("curl/"));
    r.push(str_chars("wget/"));
    r.push(str_chars("postmanruntime"));
    assert(views(r@) =~= default_user_agent_signals());
    r
}

fn request_signal_words() -> (r: Vec<Vec<char>>)
    ensures
        views(r@) == request_signals(),
{
    let mut r: Vec<Vec<char>> = Vec::new();
    r.push(str_chars(".get("));
    r.push(str_chars(".post("));
    r.push(str_chars("fetch("));
    r.push(str_chars("urlopen("));
    r.push(str_chars("requests."));
    assert(views(r@) =~= request_signals());
    r
}

/// A line that declares a User-Agent whose value looks like a request
/// library's default string.
pub open spec fn declares_default_user_agent() -> spec_fn(Seq<char>) -> bool {
    |line: Seq<char>|
        has_any(line, user_agent_signals()) && has_any(
            ascii_lower(line),
            default_user_agent_signals(),
        )
}

/// The 1-based number of the first line that looks like an outbound request
/// call, or 1 when no line does.
pub open spec fn request_line_number(lines: Seq<Seq<char>>) -> usize {
    match first_index(lines, mentions_any(request_signals())) {
        Some(i) => (i + 1) as usize,
        None => 1,
    }
}

/// The User-Agent finding: a missing User-Agent, or else the first line that
/// declares a library default one.
pub open spec fn user_agent_findings(source: Seq<char>) -> Seq<(usize, Seq<char>)> {
    let lines = text_lines(source);
    if !has_any(source, user_agent_signals()) {
        seq![(request_line_number(lines), MSG_NO_USER_AGENT@)]
    } else {
        match first_index(lines, declares_default_user_agent()) {
            Some(i) => seq![((i + 1) as usize, MSG_DEFAULT_USER_AGENT@)],
            None => seq![],
        }
    }
}

/// The rate-limit finding: no line mentions any backoff signal.
pub open spec fn rate_limit_findings(source: Seq<char>) -> Seq<(usize, Seq<char>)> {
    let lines = text_lines(source);
    if first_index(lines, mentions_any(backoff_signals())) is None {
        seq![(request_line_number(lines), MSG_NO_RATE_LIMIT@)]
    } else {
        seq![]
    }
}

/// The findings for `source`. Source in which no line looks like a request
/// call gets the single "couldn't recognize" finding on line 1.
pub open spec fn spec_findings(source: Seq<char>) -> Seq<(usize, Seq<char>)> {
    if first_index(text_lines(source), mentions_any(request_signals())) is None {
        seq![(1usize, MSG_UNRECOGNIZED@)]
    } else {
        user_agent_findings(source) + rate_limit_findings(source)
    }
}

/// The verdict for a number of findings.
pub open spec fn verdict_for(n: nat) -> Verdict {
    if n == 0 {
        Verdict::Green
    } else if n == 1 {
        Verdict::Yellow
    } else {
        Verdict::Red
    }
}

/// The score of `source`.
pub open spec fn spec_analyze(source: Seq<char>) -> (Verdict, Seq<(usize, Seq<char>)>) {
    (verdict_for(spec_findings(source).len()), spec_findings(source))
}

/// The index of the first line that declares a library default User-Agent.
fn default_user_agent_line(
    lines: &Vec<Vec<char>>,
    ua: &Vec<Vec<char>>,
    defaults: &Vec<Vec<char>>,
) -> (r: Option<usize>)
    requires
        views(ua@) == user_agent_signals(),
        views(defaults@) == default_user_agent_signals(),
    ensures
        match r {
            Some(i) => i < lines.len() && first_index(views(lines@), declares_default_user_agent())
                == Some(i as int),
            None => first_index(views(lines@), declares_default_user_agent()) is None,
        },
{
    let ghost p = declares_default_user_agent();
    let ghost ls = views(lines@);
    let mut i: usize = 0;
    while i < lines.len()
        invariant
            i <= lines.len(),
            ls == views(lines@),
            p == declares_default_user_agent(),
            views(ua@) == user_agent_signals(),
            views(defaults@) == default_user_agent_signals(),
            forall|j: int| 0 <= j < i ==> !p(#[trigger] ls[j]),
        decreases lines.len() - i,
    {
        assert(ls[i as int] == lines@[i as int]@);
        let lower = lower_ascii(&lines[i]);
        if contains_any(&lines[i], ua) && contains_any(&lower, defaults) {
            proof {
                lemma_first_index_is(ls, p, i as int);
            }
            return Some(i);
        }
        i += 1;
    }
    proof {
        lemma_first_index(ls, p);
    }
    None
}

fn finding(line: usize, message: &str) -> (f: Finding)
    ensures
        f@ == (line, message@),
{
    Finding { line, message: String::from_str(message) }
}

/// Scans pasted scraper source line by line for the two politeness signals:
/// a declared User-Agent, and some form of rate limiting/backoff between
/// requests. Never panics on arbitrary input.
///
/// Source that doesn't contain any recognized request-call pattern degrades
/// to Yellow with an explanatory finding rather than a false Red: the
/// analyzer has no request line to point at, so it can't confidently claim
/// the code is impolite.
pub fn analyze(source: &str) -> (score: PolitenessScore)
    ensures
        score@ == spec_analyze(source@),
{
    let chars = str_chars(source);
    let lines = split_lines(&chars);
    let request_words = request_signal_words();
    let request = first_line_mentioning(&lines, &request_words);
    let request_line: usize = match request {
        Some(i) => i + 1,
        None => {
            let mut findings: Vec<Finding> = Vec::new();
            findings.push(finding(1, MSG_UNRECOGNIZED));
            let score = PolitenessScore { verdict: Verdict::Yellow, findings };
            assert(score@.1 =~= spec_findings(source@));
            return score;
        },
    };
    assert(request_line == request_line_number(text_lines(source@)));

    let ua_words = user_agent_signal_words();
    let has_user_agent = contains_any(&chars, &ua_words);
    let backoff_words = backoff_signal_words();
    let backoff_line = first_line_mentioning(&lines, &backoff_words);

    let mut findings: Vec<Finding> = Vec::new();
    if !has_user_agent {
        findings.push(finding(request_line, MSG_NO_USER_AGENT));
    } else {
        let default_words = default_user_agent_signal_words();
        match default_user_agent_line(&lines, &ua_words, &default_words) {
            Some(i) => {
                findings.push(finding(i + 1, MSG_DEFAULT_USER_AGENT));
            },
            None => {},
        }
    }
    let ghost ua_part = findings@.map_values(|f: Finding| f@);
    assert(ua_part =~= user_agent_findings(source@));

    if backoff_line.is_none() {
        findings.push(finding(request_line, MSG_NO_RATE_LIMIT));
    }
    let ghost all = findings@.map_values(|f: Finding| f@);
    assert(all =~= ua_part + rate_limit_findings(source@));

    let verdict = if findings.len() == 0 {
        Verdict::Green
    } else if findings.len() == 1 {
        Verdict::Yellow
    } else {
        Verdict::Red
    };
    let score = PolitenessScore { verdict, findings };
    assert(score@.1 =~= spec_findings(source@));
    score
}

/// One finding as a JSON object.
pub open spec fn finding_json(f: (usize, Seq<char>)) -> Seq<char> {
    "{\"line\":"@ + decimal(f.0 as nat) + ",\"message\":"@ + spec_encode(f.1) + "}"@
}

/// The findings as JSON objects separated by commas.
pub open spec fn findings_json(fs: Seq<(usize, Seq<char>)>) -> Seq<char>
    decreases fs.len(),
{
    if fs.len() == 0 {
        seq![]
    } else if fs.len() == 1 {
        finding_json(fs[0])
    } else {
        findings_json(fs.drop_last()) + ","@ + finding_json(fs.last())
    }
}

/// A score as the JSON object `{"verdict":"...","findings":[...]}`.
pub open spec fn score_json(v: (Verdict, Seq<(usize, Seq<char>)>)) -> Seq<char> {
    "{\"verdict\":\""@ + v.0.name() + "\",\"findings\":["@ + findings_json(v.1) + "]}"@
}

impl PolitenessScore {
    /// The score as hand-rolled JSON, so the wasm boundary stays
    /// dependency-free: `{"verdict":"...","findings":[{"line":N,"message":"..."},...]}`.
    pub fn to_json(&self) -> (r: String)
        ensures
            r@ == score_json(self@),
    {
        let ghost fs = self@.1;
        let mut out = String::new();
        out.append("{\"verdict\":\"");
        let name = self.verdict.to_string();
        out.append(name.as_str());
        out.append("\",\"findings\":[");
        let ghost head = out@;
        let mut i: usize = 0;
        while i < self.findings.len()
            invariant
                i <= self.findings.len(),
                fs == self@.1,
                fs.len() == self.findings.len(),
                out@ == head + findings_json(fs.take(i as int)),
            decreases self.findings.len() - i,
        {
            let ghost before = out@;
            if i > 0 {
                out.append(",");
            }
            let ghost sep = out@;
            out.append("{\"line\":");
            push_decimal(&mut out, self.findings[i].line as u128);
            out.append(",\"message\":");
            push_encoded(&mut out, self.findings[i].message.as_str());
            out.append("}");
            assert(fs[i as int] == self.findings@[i as int]@);
            assert(out@ =~= sep + finding_json(fs[i as int]));
            assert(fs.take(i + 1).drop_last() =~= fs.take(i as int));
            assert(fs.take(i + 1).last() == fs[i as int]);
            if i == 0 {
                assert(fs.take(1)[0] == fs[0]);
                assert(out@ =~= head + findings_json(fs.take(i + 1)));
            } else {
                assert(out@ =~= head + findings_json(fs.take(i + 1)));
            }
            i += 1;
        }
        out.append("]}");
        assert(fs.take(fs.len() as int) =~= fs);
        assert(out@ =~= score_json(self@));
        out
    }
}

// ---------------------------------------------------------------------------
// Laws
// ---------------------------------------------------------------------------
/// There are at most two findings, and the verdict counts them: green with
/// none, yellow with one, red with two.
pub proof fn lemma_verdict_counts_findings(source: Seq<char>)
    ensures
        spec_analyze(source).1.len() <= 2,
        spec_analyze(source).0 == Verdict::Green <==> spec_analyze(source).1.len() == 0,
        spec_analyze(source).0 == Verdict::Yellow <==> spec_analyze(source).1.len() == 1,
        spec_analyze(source).0 == Verdict::Red <==> spec_analyze(source).1.len() == 2,
{
}

/// Source in which no line looks like a request call is never judged red: it
/// gets Yellow and the single "verify manually" finding on line 1.
pub proof fn lemma_unrecognized_source_is_yellow(source: Seq<char>)
    requires
        forall|j: int|
            0 <= j < text_lines(source).len() ==> !has_any(
                #[trigger] text_lines(source)[j],
                request_signals(),
            ),
    ensures
        spec_analyze(source).0 == Verdict::Yellow,
        spec_analyze(source).1 == seq![(1usize, MSG_UNRECOGNIZED@)],
{
    let lines = text_lines(source);
    let p = mentions_any(request_signals());
    lemma_first_index(lines, p);
    if first_index(lines, p) is Some {
        let i = first_index(lines, p)->0;
        assert(p(lines[i]));
    }
}

/// Recognized source that declares a User-Agent that is not a library
/// default, and that rate-limits somewhere, is green with no findings.
pub proof fn lemma_polite_source_is_green(source: Seq<char>, request: int, backoff: int)
    requires
        0 <= request < text_lines(source).len(),
        has_any(text_lines(source)[request], request_signals()),
        has_any(source, user_agent_signals()),
        forall|j: int|
            0 <= j < text_lines(source).len() ==> !(#[trigger] declares_default_user_agent()(
                text_lines(source)[j],
            )),
        0 <= backoff < text_lines(source).len(),
        has_any(text_lines(source)[backoff], backoff_signals()),
    ensures
        spec_analyze(source).0 == Verdict::Green,
        spec_analyze(source).1.len() == 0,
{
    let lines = text_lines(source);
    lemma_first_index(lines, mentions_any(request_signals()));
    lemma_first_index(lines, mentions_any(backoff_signals()));
    lemma_first_index(lines, declares_default_user_agent());
    assert(mentions_any(request_signals())(lines[request]));
    assert(mentions_any(backoff_signals())(lines[backoff]));
    if first_index(lines, declares_default_user_agent()) is Some {
        let i = first_index(lines, declares_default_user_agent())->0;
        assert(declares_default_user_agent()(lines[i]));
    }
    assert(spec_findings(source) =~= Seq::<(usize, Seq<char>)>::empty());
}

/// Source that never mentions a User-Agent is never green.
pub proof fn lemma_missing_user_agent_is_never_green(source: Seq<char>)
    requires
        !has_any(source, user_agent_signals()),
    ensures
        spec_analyze(source).0 != Verdict::Green,
{
}

proof fn lemma_finding_json_no_control(f: (usize, Seq<char>))
    ensures
        no_control(finding_json(f)),
{
    reveal_strlit("{\"line\":");
    reveal_strlit(",\"message\":");
    reveal_strlit("}");
    lemma_decimal_digits(f.0 as nat);
    lemma_encode_has_no_raw_control_chars(f.1);
    let a = "{\"line\":"@;
    let d = decimal(f.0 as nat);
    let b = ",\"message\":"@;
    let c = "}"@;
    assert(no_control(a));
    assert(no_control(b));
    assert(no_control(c));
    assert(no_control(d)) by {
        assert forall|i: int| 0 <= i < d.len() implies (d[i] as u32) >= 0x20 by {
            assert('0' <= d[i]);
        }
    }
    lemma_no_control_concat(a, d);
    lemma_no_control_concat(a + d, b);
    lemma_no_control_concat(a + d + b, spec_encode(f.1));
    lemma_no_control_concat(a + d + b + spec_encode(f.1), c);
}

proof fn lemma_findings_json_no_control(fs: Seq<(usize, Seq<char>)>)
    ensures
        no_control(findings_json(fs)),
    decreases fs.len(),
{
    if fs.len() == 1 {
        lemma_finding_json_no_control(fs[0]);
    } else if fs.len() > 1 {
        reveal_strlit(",");
        lemma_findings_json_no_control(fs.drop_last());
        lemma_finding_json_no_control(fs.last());
        assert(no_control(","@));
        lemma_no_control_concat(findings_json(fs.drop_last()), ","@);
        lemma_no_control_concat(findings_json(fs.drop_last()) + ","@, finding_json(fs.last()));
    }
}

/// The JSON report holds no raw control character, whatever the findings'
/// messages hold: they go through the RFC 8259 encoder.
pub proof fn lemma_score_json_has_no_raw_control_chars(v: (Verdict, Seq<(usize, Seq<char>)>))
    ensures
        no_control(score_json(v)),
{
    reveal_strlit("{\"verdict\":\"");
    reveal_strlit("\",\"findings\":[");
    reveal_strlit("]}");
    reveal_strlit("green");
    reveal_strlit("yellow");
    reveal_strlit("red");
    let a = "{\"verdict\":\""@;
    let b = "\",\"findings\":["@;
    let c = "]}"@;
    assert(no_control(a));
    assert(no_control(b));
    assert(no_control(c));
    assert(no_control(v.0.name()));
    lemma_findings_json_no_control(v.1);
    lemma_no_control_concat(a, v.0.name());
    lemma_no_control_concat(a + v.0.name(), b);
    lemma_no_control_concat(a + v.0.name() + b, findings_json(v.1));
    lemma_no_control_concat(a + v.0.name() + b + findings_json(v.1), c);
}

/// A default-User-Agent finding names a source line that itself spells out
/// a User-Agent header name (`User-Agent`, `user_agent` or `user-agent`) and,
/// in lower case, a request library's default string. So a line that only
/// mentions a library (an `import` of `node-fetch`, say) never draws it.
pub proof fn lemma_default_user_agent_finding_names_a_header_line(source: Seq<char>, k: int)
    requires
        text_lines(source).len() <= usize::MAX,
        0 <= k < spec_analyze(source).1.len(),
        spec_analyze(source).1[k].1 == MSG_DEFAULT_USER_AGENT@,
    ensures
        ({
            let n = spec_analyze(source).1[k].0 as int;
            let line = text_lines(source)[n - 1];
            let lower = ascii_lower(line);
            &&& 1 <= n <= text_lines(source).len()
            &&& contains(line, "User-Agent"@) || contains(line, "user_agent"@) || contains(
                line,
                "user-agent"@,
            )
            &&& contains(lower, "python-requests"@) || contains(lower, "node-fetch"@) || contains(
                lower,
                "go-http-client"@,
            ) || contains(lower, "okhttp"@) || contains(lower, "curl/"@) || contains(
                lower,
                "wget/"@,
            ) || contains(lower, "postmanruntime"@)
        }),
{
    reveal_strlit(
        "couldn't recognize a request-library pattern in this source \u{2014} verify User-Agent and rate limiting manually",
    );
    reveal_strlit("no User-Agent header found \u{2014} scrapers should identify themselves");
    reveal_strlit(
        "User-Agent looks like a request library's default string \u{2014} set a real, distinguishing identifier instead",
    );
    reveal_strlit("no rate limiting or backoff detected between requests");
    assert(MSG_DEFAULT_USER_AGENT@[0] == 'U');
    assert(MSG_UNRECOGNIZED@[0] == 'c');
    assert(MSG_NO_USER_AGENT@[0] == 'n' && MSG_NO_USER_AGENT@[1] == 'o');
    assert(MSG_NO_RATE_LIMIT@[0] == 'n');
    let lines = text_lines(source);
    let f = spec_findings(source);
    assert(first_index(lines, mentions_any(request_signals())) is Some);
    let u = user_agent_findings(source);
    let r = rate_limit_findings(source);
    assert(f == u + r);
    if k >= u.len() {
        assert(f[k] == r[k - u.len()]);
        assert(false);
    }
    assert(f[k] == u[k]);
    assert(has_any(source, user_agent_signals()));
    let p = declares_default_user_agent();
    lemma_first_index(lines, p);
    let i = first_index(lines, p)->0;
    assert(p(lines[i]));
    assert(f[k].0 as int == i + 1);
    let line = lines[i];
    let kw = choose|j: int| 0 <= j < user_agent_signals().len() && contains(line, #[trigger] user_agent_signals()[j]);
    assert(0 <= kw < 3);
    let kd = choose|j: int| 0 <= j < default_user_agent_signals().len() && contains(ascii_lower(line), #[trigger] default_user_agent_signals()[j]);
    assert(0 <= kd < 7);
}

/// One finding as a JSON value: `{"line": <number>, "message": <string>}`.
pub open spec fn finding_value(f: (usize, Seq<char>)) -> JsonValue {
    JsonValue::Object(
        seq![
            ("line"@, JsonValue::Number(decimal(f.0 as nat))),
            ("message"@, JsonValue::Str(f.1)),
        ],
    )
}

/// A score as a JSON value: `{"verdict": <name>, "findings": [<finding>, ...]}`,
/// the findings in order.
pub open spec fn report_value(v: (Verdict, Seq<(usize, Seq<char>)>)) -> JsonValue {
    JsonValue::Object(
        seq![
            ("verdict"@, JsonValue::Str(v.0.name())),
            ("findings"@, JsonValue::Array(v.1.map_values(|f: (usize, Seq<char>)| finding_value(f)))),
        ],
    )
}

/// A decimal rendering has no leading zero.
proof fn lemma_decimal_lead(n: nat)
    ensures
        decimal(n).len() > 0,
        decimal(n)[0] != '0' || decimal(n).len() == 1,
        n > 0 ==> decimal(n)[0] != '0',
    decreases n,
{
    if n >= 10 {
        lemma_decimal_lead(n / 10);
        assert(decimal(n)[0] == decimal(n / 10)[0]);
    } else {
        assert(decimal(n)[0] == digit_char(n));
    }
}

proof fn lemma_finding_value_wf(f: (usize, Seq<char>))
    ensures
        value_wf(finding_value(f)),
{
    let d = decimal(f.0 as nat);
    lemma_decimal_lead(f.0 as nat);
    lemma_decimal_digits(f.0 as nat);
    assert(number_wf(d));
    let ms = seq![("line"@, JsonValue::Number(d)), ("message"@, JsonValue::Str(f.1))];
    let tail = ms.drop_first();
    assert(value_wf(JsonValue::Number(d)));
    assert(value_wf(JsonValue::Str(f.1)));
    assert(tail.len() == 1 && tail[0].1 == JsonValue::Str(f.1));
    assert(tail.drop_first().len() == 0);
    assert(members_wf(tail.drop_first()));
    assert(members_wf(tail));
    assert(ms[0].1 == JsonValue::Number(d));
    assert(members_wf(ms));
}

proof fn lemma_findings_wf(fs: Seq<(usize, Seq<char>)>)
    ensures
        items_wf(fs.map_values(|f: (usize, Seq<char>)| finding_value(f))),
    decreases fs.len(),
{
    let m = fs.map_values(|f: (usize, Seq<char>)| finding_value(f));
    if fs.len() > 0 {
        lemma_finding_value_wf(fs[0]);
        lemma_findings_wf(fs.drop_first());
        assert(m.drop_first() =~= fs.drop_first().map_values(
            |f: (usize, Seq<char>)| finding_value(f),
        ));
    }
}

proof fn lemma_key_text(k: &str)
    requires
        plain(k@),
    ensures
        spec_encode(k@) == seq!['"'] + k@ + seq!['"'],
{
    lemma_plain_encode(k@);
}

proof fn lemma_finding_text(f: (usize, Seq<char>))
    ensures
        to_text(finding_value(f)) == finding_json(f),
{
    reveal_strlit("line");
    reveal_strlit("message");
    reveal_strlit("{\"line\":");
    reveal_strlit(",\"message\":");
    reveal_strlit("}");
    lemma_key_text("line");
    lemma_key_text("message");
    let d = decimal(f.0 as nat);
    let ms = seq![("line"@, JsonValue::Number(d)), ("message"@, JsonValue::Str(f.1))];
    let tail = ms.drop_first();
    assert(tail.len() == 1 && tail[0] == ("message"@, JsonValue::Str(f.1)));
    assert(ms.len() == 2 && ms[0] == ("line"@, JsonValue::Number(d)));
    assert(to_text(JsonValue::Number(d)) == d);
    assert(to_text(JsonValue::Str(f.1)) == spec_encode(f.1));
    assert(members_text(tail) == spec_encode("message"@) + seq![':'] + spec_encode(f.1));
    assert(members_text(ms) == spec_encode("line"@) + seq![':'] + d + seq![','] + members_text(
        tail,
    ));
    assert(to_text(finding_value(f)) =~= finding_json(f));
}

proof fn lemma_findings_text(fs: Seq<(usize, Seq<char>)>)
    ensures
        items_text(fs.map_values(|f: (usize, Seq<char>)| finding_value(f))) == findings_json(fs),
    decreases fs.len(),
{
    reveal_strlit(",");
    let m = fs.map_values(|f: (usize, Seq<char>)| finding_value(f));
    if fs.len() == 1 {
        lemma_finding_text(fs[0]);
    } else if fs.len() >= 2 {
        lemma_findings_text(fs.drop_last());
        lemma_finding_text(fs.last());
        lemma_items_text_back(m);
        assert(m.drop_last() =~= fs.drop_last().map_values(
            |f: (usize, Seq<char>)| finding_value(f),
        ));
        assert(items_text(m) =~= findings_json(fs));
    } else {
        assert(items_text(m) =~= findings_json(fs));
    }
}

proof fn lemma_report_text(v: (Verdict, Seq<(usize, Seq<char>)>))
    ensures
        to_text(report_value(v)) == score_json(v),
{
    reveal_strlit("verdict");
    reveal_strlit("findings");
    reveal_strlit("green");
    reveal_strlit("yellow");
    reveal_strlit("red");
    reveal_strlit("{\"verdict\":\"");
    reveal_strlit("\",\"findings\":[");
    reveal_strlit("]}");
    lemma_key_text("verdict");
    lemma_key_text("findings");
    lemma_plain_encode(v.0.name());
    let m = v.1.map_values(|f: (usize, Seq<char>)| finding_value(f));
    lemma_findings_text(v.1);
    let ms = seq![("verdict"@, JsonValue::Str(v.0.name())), ("findings"@, JsonValue::Array(m))];
    let tail = ms.drop_first();
    assert(tail.len() == 1 && tail[0] == ("findings"@, JsonValue::Array(m)));
    assert(ms.len() == 2 && ms[0] == ("verdict"@, JsonValue::Str(v.0.name())));
    assert(to_text(JsonValue::Str(v.0.name())) == spec_encode(v.0.name()));
    assert(to_text(JsonValue::Array(m)) == seq!['['] + items_text(m) + seq![']']);
    assert(members_text(tail) == spec_encode("findings"@) + seq![':'] + to_text(
        JsonValue::Array(m),
    ));
    assert(members_text(ms) == spec_encode("verdict"@) + seq![':'] + spec_encode(v.0.name())
        + seq![','] + members_text(tail));
    assert(to_text(report_value(v)) =~= score_json(v));
}

/// The JSON report is a valid JSON text (RFC 8259): read back, it is the
/// object whose `verdict` member is the verdict's name and whose `findings`
/// member is an array holding, in order, one object per finding with its
/// `line` number and its `message`, whatever characters the messages hold.
pub proof fn lemma_score_json_is_valid_json(v: (Verdict, Seq<(usize, Seq<char>)>))
    ensures
        parse_json(score_json(v)) == Some(report_value(v)),
{
    lemma_findings_wf(v.1);
    let m = v.1.map_values(|f: (usize, Seq<char>)| finding_value(f));
    let ms = seq![("verdict"@, JsonValue::Str(v.0.name())), ("findings"@, JsonValue::Array(m))];
    let tail = ms.drop_first();
    assert(tail.len() == 1 && tail[0].1 == JsonValue::Array(m));
    assert(value_wf(JsonValue::Array(m)));
    assert(tail.drop_first().len() == 0);
    assert(members_wf(tail.drop_first()));
    assert(members_wf(tail));
    assert(ms[0].1 == JsonValue::Str(v.0.name()));
    assert(value_wf(JsonValue::Str(v.0.name())));
    assert(members_wf(ms));
    assert(value_wf(report_value(v)));
    lemma_report_text(v);
    lemma_json_reads_back(report_value(v));
}

/// Every finding names a 1-based line of the source (line 1 when the source
/// has no lines at all).
pub proof fn lemma_findings_name_source_lines(source: Seq<char>)
    requires
        text_lines(source).len() <= usize::MAX,
    ensures
        forall|k: int|
            0 <= k < spec_analyze(source).1.len() ==> {
                let line = (#[trigger] spec_analyze(source).1[k]).0;
                1 <= line && (line <= text_lines(source).len() || line == 1)
            },
{
    let lines = text_lines(source);
    lemma_first_index(lines, mentions_any(request_signals()));
    lemma_first_index(lines, declares_default_user_agent());
    lemma_first_index(lines, mentions_any(backoff_signals()));
    let f = spec_findings(source);
    assert forall|k: int| 0 <= k < f.len() implies 1 <= (#[trigger] f[k]).0 && (f[k].0
        <= lines.len() || f[k].0 == 1) by {
        if first_index(lines, mentions_any(request_signals())) is Some {
            let u = user_agent_findings(source);
            let r = rate_limit_findings(source);
            if k < u.len() {
                assert(f[k] == u[k]);
            } else {
                assert(f[k] == r[k - u.len()]);
            }
        }
    }
}

} // verus!
