//! politebot-core: the analysis engine behind polite_bot.
//!
//! It scores pasted scraper source for politeness (a declared User-Agent and
//! rate limiting between requests), suggests a one-click User-Agent fix, and
//! answers robots.txt queries. The entry points below take and return plain
//! strings, so a WebAssembly front end can call them with no glue.

pub mod analyzer;
pub mod fixer;
pub mod json;
pub mod json_value;
pub mod robots;
pub mod text;

pub use analyzer::{analyze, Finding, PolitenessScore, Verdict};
pub use fixer::{suggest_user_agent_fix, FixSuggestion};
pub use robots::{parse as parse_robots, RobotsRules, RuleGroup};

use vstd::prelude::*;
use analyzer::{score_json, spec_analyze};
use fixer::{fix_json, spec_fix};
use robots::{spec_is_allowed, spec_parse};

verus! {

/// Returns the crate version, so a front end can tell that the module loaded.
pub fn version() -> (r: String)
    ensures
        r@ == "0.1.0"@,
{
    String::from_str("0.1.0")
}

/// Scores pasted scraper source for politeness issues. Returns a JSON string
/// (`{"verdict": "...", "findings": [...]}`).
pub fn score_scraper(source: &str) -> (r: String)
    ensures
        r@ == score_json(spec_analyze(source@)),
{
    analyze(source).to_json()
}

/// True if `path` is allowed for `agent` under the given robots.txt text.
pub fn check_robots(robots_txt: &str, agent: &str, path: &str) -> (r: bool)
    ensures
        r == spec_is_allowed(spec_parse(robots_txt@), agent@, path@),
{
    parse_robots(robots_txt).is_allowed(agent, path)
}

/// Suggests a fix for the missing-User-Agent finding at `line` (1-based) in
/// `source`. Returns a JSON `{"diff": "...", "patched_source": "..."}`
/// object, or an empty string if no fix is available for that line's call
/// shape.
pub fn suggest_fix(source: &str, line: usize) -> (r: String)
    ensures
        r@ == match spec_fix(source@, line as int) {
            Some(fix) => fix_json(fix),
            None => Seq::<char>::empty(),
        },
{
    match suggest_user_agent_fix(source, line) {
        Some(fix) => fix.to_json(),
        None => String::new(),
    }
}

} // verus!
