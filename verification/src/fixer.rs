//! The one-click "add recommended User-Agent header" fix for the
//! missing-User-Agent finding. It patches Python `requests`-style calls and
//! JavaScript `fetch` calls; any other shape, a call that already passes an
//! options argument, or a call that sits inside a string literal yields
//! `None` rather than a guessed, broken patch.

use vstd::prelude::*;
use crate::json::{
    lemma_encode_has_no_raw_control_chars, lemma_no_control_concat, lemma_plain_encode, no_control,
    push_encoded, spec_encode,
};
use crate::json_value::{
    lemma_json_reads_back, members_text, members_wf, parse_json, to_text, value_wf, JsonValue,
};
use crate::text::{
    decimal, extend_range, extend_str, find, find_chars, has_prefix, join_lines, leading_whitespace_chars,
    leading_ws, lemma_find, lemma_leading_ws_is_prefix, lemma_lines_of_join,
    lemma_no_newline_concat, lemma_no_newline_subrange, lemma_text_lines_have_no_newline,
    lemma_trim_is_subrange, no_newline, no_trailing_cr, occurs_at, push_chars, push_decimal,
    split_lines, starts_with_chars, str_chars, text_lines, trim, trim_chars, trimmed_range, views,
};

verus! {

/// The identifier that the fix declares.
pub const DEFAULT_USER_AGENT: &'static str = "polite-bot/1.0 (+https://github.com/ctkrug/polite-bot)";

/// A suggested fix for a single finding: a unified-diff-style snippet and
/// the fully patched source, ready to copy back into the editor.
#[derive(Debug, Clone)]
pub struct FixSuggestion {
    pub diff: String,
    pub patched_source: String,
}

impl View for FixSuggestion {
    type V = (Seq<char>, Seq<char>);

    open spec fn view(&self) -> (Seq<char>, Seq<char>) {
        (self.diff@, self.patched_source@)
    }
}

/// The two call shapes the fixer patches.
#[derive(Debug, Clone, Copy, PartialEq, Eq, Structural)]
pub enum CallKind {
    /// A Python `requests`-style `.get(` / `.post(` call.
    Python,
    /// A JavaScript `fetch(` call.
    Fetch,
}

/// The Python call markers; each ends with the call's opening parenthesis.
pub open spec fn python_call_markers() -> Seq<Seq<char>> {
    seq!["requests.get("@, "requests.post("@, ".get("@, ".post("@]
}

/// The JavaScript call marker; it ends with the call's opening parenthesis.
pub open spec fn fetch_call_marker() -> Seq<char> {
    "fetch("@
}

/// The position of the opening parenthesis of the first occurrence of `m`.
pub open spec fn marker_paren(line: Seq<char>, m: Seq<char>) -> Option<int> {
    match find(line, m) {
        Some(i) => Some(i + m.len() - 1),
        None => None,
    }
}

/// The smaller of two optional positions.
pub open spec fn min_opt(a: Option<int>, b: Option<int>) -> Option<int> {
    match (a, b) {
        (Some(x), Some(y)) => Some(
            if x <= y {
                x
            } else {
                y
            },
        ),
        (Some(x), None) => Some(x),
        (None, _) => b,
    }
}

/// The earliest opening parenthesis among the markers that occur in `line`.
pub open spec fn earliest_paren(line: Seq<char>, markers: Seq<Seq<char>>) -> Option<int>
    decreases markers.len(),
{
    if markers.len() == 0 {
        None
    } else {
        min_opt(earliest_paren(line, markers.drop_last()), marker_paren(line, markers.last()))
    }
}

/// The call to patch: the shape and the position of its opening parenthesis,
/// whichever of the Python and `fetch` calls opens first.
pub open spec fn call_open(line: Seq<char>) -> Option<(CallKind, int)> {
    match (earliest_paren(line, python_call_markers()), marker_paren(line, fetch_call_marker())) {
        (Some(p), Some(f)) => if f < p {
            Some((CallKind::Fetch, f))
        } else {
            Some((CallKind::Python, p))
        },
        (Some(p), None) => Some((CallKind::Python, p)),
        (None, Some(f)) => Some((CallKind::Fetch, f)),
        (None, None) => None,
    }
}

/// The position of the parenthesis that closes the call, scanning from `i`
/// with `depth` parentheses open (bracket-depth aware, so nested calls do not
/// end it).
pub open spec fn close_from(line: Seq<char>, i: int, depth: nat) -> Option<int>
    decreases line.len() - i,
{
    if i < 0 || i >= line.len() {
        None
    } else if line[i] == '(' {
        close_from(line, i + 1, depth + 1)
    } else if line[i] == ')' {
        if depth <= 1 {
            Some(i)
        } else {
            close_from(line, i + 1, (depth - 1) as nat)
        }
    } else {
        close_from(line, i + 1, depth)
    }
}

/// A character that opens a string literal.
pub open spec fn is_quote(c: char) -> bool {
    c == '"' || c == '\'' || c == '`'
}

/// A character that opens a bracket.
pub open spec fn is_opener(c: char) -> bool {
    c == '(' || c == '[' || c == '{'
}

/// A character that closes a bracket.
pub open spec fn is_closer(c: char) -> bool {
    c == ')' || c == ']' || c == '}'
}

/// One step of the lexical scan: the open string literal (by its quote), if
/// any; whether the next character is escaped; and the bracket depth outside
/// string literals (an unmatched closer leaves it at zero).
pub open spec fn scan_step(st: (Option<char>, bool, nat), c: char) -> (Option<char>, bool, nat) {
    match st.0 {
        Some(q) => if st.1 {
            (Some(q), false, st.2)
        } else if c == '\\' {
            (Some(q), true, st.2)
        } else if c == q {
            (None, false, st.2)
        } else {
            (Some(q), false, st.2)
        },
        None => if is_quote(c) {
            (Some(c), false, st.2)
        } else if is_opener(c) {
            (None, false, st.2 + 1)
        } else if is_closer(c) {
            (
                None,
                false,
                if st.2 > 0 {
                    (st.2 - 1) as nat
                } else {
                    0
                },
            )
        } else {
            (None, false, st.2)
        },
    }
}

/// The lexical state after reading `s`.
pub open spec fn scan(s: Seq<char>) -> (Option<char>, bool, nat)
    decreases s.len(),
{
    if s.len() == 0 {
        (None, false, 0)
    } else {
        scan_step(scan(s.drop_last()), s.last())
    }
}

/// `args` holds a comma outside any string literal and bracket, that is, more
/// than one argument.
pub open spec fn top_level_comma(args: Seq<char>) -> bool {
    exists|i: int|
        0 <= i < args.len() && args[i] == ',' && (#[trigger] scan(args.take(i))).0 is None
            && scan(args.take(i)).2 == 0
}

/// What the Python patch puts between the parentheses.
pub open spec fn python_arguments(args: Seq<char>) -> Seq<char> {
    if args.len() == 0 {
        "headers=headers"@
    } else {
        args + ", headers=headers"@
    }
}

/// The options object that the `fetch` patch adds as the second argument.
pub open spec fn fetch_options() -> Seq<char> {
    ", { headers: { \"User-Agent\": \""@ + DEFAULT_USER_AGENT@ + "\" } }"@
}

/// The patched call line, with the shape of the call, or `None` when the line
/// holds no call this fixer knows how to patch.
pub open spec fn patch_call_line(line: Seq<char>) -> Option<(CallKind, Seq<char>)> {
    match call_open(line) {
        None => None,
        Some((kind, open)) => if scan(line.take(open)).0 is Some {
            None
        } else {
            match close_from(line, open + 1, 1) {
                None => None,
                Some(close) => {
                    let args = trim(line.subrange(open + 1, close));
                    let head = line.take(open + 1);
                    let tail = line.skip(close);
                    match kind {
                        CallKind::Python => Some((kind, head + python_arguments(args) + tail)),
                        CallKind::Fetch => if args.len() == 0 || top_level_comma(args) {
                            None
                        } else {
                            Some((kind, head + args + fetch_options() + tail))
                        },
                    }
                },
            }
        },
    }
}

/// A line that holds code: neither blank nor a comment.
pub open spec fn is_code(line: Seq<char>) -> bool {
    trim(line).len() > 0 && trim(line)[0] != '#'
}

/// A line that opens a Python `for` or `while` loop.
pub open spec fn opens_loop(line: Seq<char>) -> bool {
    has_prefix(trim(line), "for "@) || has_prefix(trim(line), "while "@)
}

/// The indentation of a line: the length of its leading whitespace.
pub open spec fn indent(line: Seq<char>) -> nat {
    leading_ws(line).len()
}

/// The nearest code line before line `j` that is indented less than `ind`:
/// the header of the block that holds a line indented by `ind`.
pub open spec fn enclosing_line(lines: Seq<Seq<char>>, j: int, ind: nat) -> Option<int>
    decreases j,
{
    if j <= 0 {
        None
    } else if is_code(lines[j - 1]) && indent(lines[j - 1]) < ind {
        Some(j - 1)
    } else {
        enclosing_line(lines, j - 1, ind)
    }
}

/// Where the header line goes for the call on line `idx` (0-based): above
/// the loop that directly encloses the call, so the dictionary is built
/// once; when no loop encloses the call, just above the call.
pub open spec fn header_index(lines: Seq<Seq<char>>, idx: int) -> int {
    match enclosing_line(lines, idx, indent(lines[idx])) {
        Some(j) => if opens_loop(lines[j]) {
            j
        } else {
            idx
        },
        None => idx,
    }
}

/// The line that declares the `headers` dictionary, indented like the line
/// `anchor` in front of which it goes.
pub open spec fn header_line(anchor: Seq<char>) -> Seq<char> {
    leading_ws(anchor) + "headers = {\"User-Agent\": \""@ + DEFAULT_USER_AGENT@ + "\"}"@
}

/// The old range of a unified-diff hunk: its first line, and its line count
/// unless that is one.
pub open spec fn old_range(start: nat, count: nat) -> Seq<char> {
    if count == 1 {
        decimal(start)
    } else {
        decimal(start) + ","@ + decimal(count)
    }
}

/// Unchanged lines of a hunk, each on a line of its own after a space.
pub open spec fn context_lines(ctx: Seq<Seq<char>>) -> Seq<char>
    decreases ctx.len(),
{
    if ctx.len() == 0 {
        seq![]
    } else {
        context_lines(ctx.drop_last()) + seq!['\n', ' '] + ctx.last()
    }
}

/// The unified diff for a Python fix whose hunk starts at 1-based line
/// `start`: the header line added there, the `context` lines kept, and the
/// original call line replaced by the patched one.
pub open spec fn python_diff(
    start: nat,
    header: Seq<char>,
    context: Seq<Seq<char>>,
    original: Seq<char>,
    patched: Seq<char>,
) -> Seq<char> {
    let count = context.len() + 1;
    "@@ -"@ + old_range(start, count) + " +"@ + decimal(start) + ","@ + decimal(count + 1)
        + " @@\n+"@ + header + context_lines(context) + "\n-"@ + original + "\n+"@ + patched
}

/// The unified diff for a `fetch` fix at 1-based `line`: the one call line
/// replaced by the patched call.
pub open spec fn fetch_diff(line: nat, original: Seq<char>, patched: Seq<char>) -> Seq<char> {
    "@@ -"@ + decimal(line) + " +"@ + decimal(line) + " @@\n-"@ + original + "\n+"@ + patched
}

/// The fix at 1-based `line` of `source`, as `(diff, patched_source)`, or
/// `None` when the line is out of range or holds no patchable call.
pub open spec fn spec_fix(source: Seq<char>, line: int) -> Option<(Seq<char>, Seq<char>)> {
    let lines = text_lines(source);
    if line < 1 || line > lines.len() {
        None
    } else {
        let idx = line - 1;
        let original = lines[idx];
        match patch_call_line(original) {
            None => None,
            Some((kind, patched)) => match kind {
                CallKind::Python => {
                    let at = header_index(lines, idx);
                    let header = header_line(lines[at]);
                    Some(
                        (
                            python_diff(
                                (at + 1) as nat,
                                header,
                                lines.subrange(at, idx),
                                original,
                                patched,
                            ),
                            join_lines(lines.update(idx, patched).insert(at, header)),
                        ),
                    )
                },
                CallKind::Fetch => Some(
                    (
                        fetch_diff(line as nat, original, patched),
                        join_lines(lines.update(idx, patched)),
                    ),
                ),
            },
        }
    }
}

// ---------------------------------------------------------------------------
// Executable parts
// ---------------------------------------------------------------------------
fn python_marker_words() -> (r: Vec<Vec<char>>)
    ensures
        views(r@) == python_call_markers(),
        forall|k: int| 0 <= k < r.len() ==> (#[trigger] r@[k])@.len() > 0,
{
    proof {
        reveal_strlit("requests.get(");
        reveal_strlit("requests.post(");
        reveal_strlit(".get(");
        reveal_strlit(".post(");
    }
    let mut r: Vec<Vec<char>> = Vec::new();
    r.push(str_chars("requests.get("));
    r.push(str_chars("requests.post("));
    r.push(str_chars(".get("));
    r.push(str_chars(".post("));
    assert(views(r@) =~= python_call_markers());
    r
}

/// The opening parenthesis of the first occurrence of `m` in `line`.
fn marker_paren_at(line: &Vec<char>, m: &Vec<char>) -> (r: Option<usize>)
    requires
        m.len() > 0,
    ensures
        match r {
            Some(p) => marker_paren(line@, m@) == Some(p as int) && p < line.len(),
            None => marker_paren(line@, m@) is None,
        },
{
    match find_chars(line, m) {
        Some(i) => {
            assert(occurs_at(line@, m@, i as int));
            assert(i + m@.len() <= line@.len());
            assert(i + m.len() <= line.len());
            Some(i + (m.len() - 1))
        },
        None => None,
    }
}

/// The earliest opening parenthesis among the Python call markers.
fn earliest_python_paren(line: &Vec<char>) -> (r: Option<usize>)
    ensures
        match r {
            Some(p) => earliest_paren(line@, python_call_markers()) == Some(p as int) && p
                < line.len(),
            None => earliest_paren(line@, python_call_markers()) is None,
        },
{
    let markers = python_marker_words();
    let ghost ms = views(markers@);
    let mut best: Option<usize> = None;
    let mut k: usize = 0;
    assert(ms.take(0) =~= Seq::<Seq<char>>::empty());
    while k < markers.len()
        invariant
            k <= markers.len(),
            ms == views(markers@),
            forall|j: int| 0 <= j < markers.len() ==> (#[trigger] markers@[j])@.len() > 0,
            match best {
                Some(p) => earliest_paren(line@, ms.take(k as int)) == Some(p as int) && p
                    < line.len(),
                None => earliest_paren(line@, ms.take(k as int)) is None,
            },
        decreases markers.len() - k,
    {
        assert(ms[k as int] == markers@[k as int]@);
        let found = marker_paren_at(line, &markers[k]);
        assert(ms.take(k + 1).drop_last() =~= ms.take(k as int));
        assert(ms.take(k + 1).last() == ms[k as int]);
        best = match (best, found) {
            (Some(x), Some(y)) => Some(
                if x <= y {
                    x
                } else {
                    y
                },
            ),
            (Some(x), None) => Some(x),
            (None, f) => f,
        };
        k += 1;
    }
    assert(ms.take(markers.len() as int) =~= ms);
    best
}

/// The call to patch on `line` (see `call_open`).
fn find_call_open_paren(line: &Vec<char>) -> (r: Option<(CallKind, usize)>)
    ensures
        match r {
            Some((kind, p)) => call_open(line@) == Some((kind, p as int)) && p < line.len(),
            None => call_open(line@) is None,
        },
{
    let python = earliest_python_paren(line);
    let marker = str_chars("fetch(");
    proof {
        reveal_strlit("fetch(");
    }
    let fetch = marker_paren_at(line, &marker);
    match (python, fetch) {
        (Some(p), Some(f)) => if f < p {
            Some((CallKind::Fetch, f))
        } else {
            Some((CallKind::Python, p))
        },
        (Some(p), None) => Some((CallKind::Python, p)),
        (None, Some(f)) => Some((CallKind::Fetch, f)),
        (None, None) => None,
    }
}

/// The closing parenthesis that matches the one at `open`.
fn find_matching_close_paren(line: &Vec<char>, open: usize) -> (r: Option<usize>)
    requires
        open < line.len(),
    ensures
        match r {
            Some(c) => close_from(line@, open + 1, 1) == Some(c as int) && open < c < line.len(),
            None => close_from(line@, open + 1, 1) is None,
        },
{
    let mut depth: usize = 1;
    let mut i: usize = open + 1;
    while i < line.len()
        invariant
            open < i <= line.len(),
            1 <= depth <= i - open,
            close_from(line@, open + 1, 1) == close_from(line@, i as int, depth as nat),
        decreases line.len() - i,
    {
        if line[i] == '(' {
            depth += 1;
        } else if line[i] == ')' {
            if depth <= 1 {
                return Some(i);
            }
            depth -= 1;
        }
        i += 1;
    }
    None
}

/// The lexical state after `s[..n]` (see `scan`).
fn scan_prefix(s: &Vec<char>, n: usize) -> (r: (Option<char>, bool, usize))
    requires
        n <= s.len(),
    ensures
        (r.0, r.1, r.2 as nat) == scan(s@.take(n as int)),
{
    let mut st: (Option<char>, bool, usize) = (None, false, 0);
    let mut i: usize = 0;
    assert(s@.take(0) =~= Seq::<char>::empty());
    while i < n
        invariant
            i <= n <= s.len(),
            st.2 <= i,
            (st.0, st.1, st.2 as nat) == scan(s@.take(i as int)),
        decreases n - i,
    {
        st = scan_next(st, s[i]);
        assert(s@.take(i + 1).drop_last() =~= s@.take(i as int));
        i += 1;
    }
    st
}

/// One step of the lexical scan (see `scan_step`).
fn scan_next(st: (Option<char>, bool, usize), c: char) -> (r: (Option<char>, bool, usize))
    requires
        st.2 < usize::MAX,
    ensures
        (r.0, r.1, r.2 as nat) == scan_step((st.0, st.1, st.2 as nat), c),
        r.2 <= st.2 + 1,
{
    match st.0 {
        Some(q) => if st.1 {
            (Some(q), false, st.2)
        } else if c == '\\' {
            (Some(q), true, st.2)
        } else if c == q {
            (None, false, st.2)
        } else {
            (Some(q), false, st.2)
        },
        None => if c == '"' || c == '\'' || c == '`' {
            (Some(c), false, st.2)
        } else if c == '(' || c == '[' || c == '{' {
            (None, false, st.2 + 1)
        } else if c == ')' || c == ']' || c == '}' {
            (
                None,
                false,
                if st.2 > 0 {
                    st.2 - 1
                } else {
                    0
                },
            )
        } else {
            (None, false, st.2)
        },
    }
}

/// Whether `args` holds a comma outside any string literal and bracket.
fn has_top_level_comma(args: &Vec<char>) -> (r: bool)
    ensures
        r == top_level_comma(args@),
{
    let mut st: (Option<char>, bool, usize) = (None, false, 0);
    let mut i: usize = 0;
    assert(args@.take(0) =~= Seq::<char>::empty());
    while i < args.len()
        invariant
            i <= args.len(),
            st.2 <= i,
            (st.0, st.1, st.2 as nat) == scan(args@.take(i as int)),
            forall|j: int|
                0 <= j < i ==> !(args@[j] == ',' && (#[trigger] scan(args@.take(j))).0 is None
                    && scan(args@.take(j)).2 == 0),
        decreases args.len() - i,
    {
        if args[i] == ',' && st.0.is_none() && st.2 == 0 {
            return true;
        }
        st = scan_next(st, args[i]);
        assert(args@.take(i + 1).drop_last() =~= args@.take(i as int));
        i += 1;
    }
    false
}

/// Patches the call on `line` (see `patch_call_line`).
fn patch_call(line: &Vec<char>) -> (r: Option<(CallKind, Vec<char>)>)
    ensures
        match r {
            Some((kind, patched)) => patch_call_line(line@) == Some((kind, patched@)),
            None => patch_call_line(line@) is None,
        },
{
    let (kind, open) = match find_call_open_paren(line) {
        Some(found) => found,
        None => return None,
    };
    let st = scan_prefix(line, open);
    if st.0.is_some() {
        return None;
    }
    let close = match find_matching_close_paren(line, open) {
        Some(c) => c,
        None => return None,
    };
    let args = trimmed_range(line, open + 1, close);
    let mut patched: Vec<char> = Vec::new();
    extend_range(&mut patched, line, 0, open + 1);
    assert(line@.subrange(0, open + 1) =~= line@.take(open + 1));
    match kind {
        CallKind::Python => {
            if args.len() == 0 {
                extend_str(&mut patched, "headers=headers");
            } else {
                extend_range(&mut patched, &args, 0, args.len());
                assert(args@.subrange(0, args.len() as int) =~= args@);
                extend_str(&mut patched, ", headers=headers");
            }
        },
        CallKind::Fetch => {
            if args.len() == 0 || has_top_level_comma(&args) {
                return None;
            }
            extend_range(&mut patched, &args, 0, args.len());
            assert(args@.subrange(0, args.len() as int) =~= args@);
            extend_str(&mut patched, ", { headers: { \"User-Agent\": \"");
            extend_str(&mut patched, DEFAULT_USER_AGENT);
            extend_str(&mut patched, "\" } }");
        },
    }
    extend_range(&mut patched, line, close, line.len());
    assert(line@.subrange(close as int, line.len() as int) =~= line@.skip(close as int));
    let ghost expected = patch_call_line(line@).unwrap();
    assert(patched@ =~= expected.1);
    Some((kind, patched))
}

/// The lines joined with `\n` between them.
fn join_with_newlines(ls: &Vec<Vec<char>>) -> (r: String)
    ensures
        r@ == join_lines(views(ls@)),
{
    let ghost v = views(ls@);
    let mut out = String::new();
    let mut i: usize = 0;
    while i < ls.len()
        invariant
            i <= ls.len(),
            v == views(ls@),
            out@ == join_lines(v.take(i as int)),
        decreases ls.len() - i,
    {
        let ghost before = out@;
        if i > 0 {
            out.push('\n');
        }
        push_chars(&mut out, &ls[i]);
        assert(v.take(i + 1).drop_last() =~= v.take(i as int));
        assert(v.take(i + 1).last() == ls@[i as int]@);
        if i == 0 {
            assert(v.take(1)[0] == ls@[0]@);
        }
        assert(out@ =~= join_lines(v.take(i + 1)));
        i += 1;
    }
    assert(v.take(ls.len() as int) =~= v);
    out
}

/// A copy of the characters of `v`.
fn copy_chars(v: &Vec<char>) -> (r: Vec<char>)
    ensures
        r@ == v@,
{
    let mut r: Vec<char> = Vec::new();
    extend_range(&mut r, v, 0, v.len());
    assert(v@.subrange(0, v.len() as int) =~= v@);
    r
}

/// Whether `line` holds code (see `is_code`).
fn is_code_line(line: &Vec<char>) -> (r: bool)
    ensures
        r == is_code(line@),
{
    let t = trim_chars(line);
    t.len() > 0 && t[0] != '#'
}

/// Whether `line` opens a loop (see `opens_loop`).
fn opens_loop_line(line: &Vec<char>) -> (r: bool)
    ensures
        r == opens_loop(line@),
{
    let t = trim_chars(line);
    starts_with_chars(&t, &str_chars("for ")) || starts_with_chars(&t, &str_chars("while "))
}

/// The header line of the block that holds line `idx` (see `enclosing_line`).
fn enclosing_block(lines: &Vec<Vec<char>>, idx: usize) -> (r: Option<usize>)
    requires
        idx < lines.len(),
    ensures
        match r {
            Some(j) => j < idx && enclosing_line(
                views(lines@),
                idx as int,
                indent(views(lines@)[idx as int]),
            ) == Some(j as int),
            None => enclosing_line(views(lines@), idx as int, indent(views(lines@)[idx as int]))
                is None,
        },
{
    let ghost ls = views(lines@);
    assert(ls[idx as int] == lines@[idx as int]@);
    let ind = leading_whitespace_chars(&lines[idx]).len();
    let mut j: usize = idx;
    while j > 0
        invariant
            j <= idx < lines.len(),
            ls == views(lines@),
            ind as nat == indent(ls[idx as int]),
            enclosing_line(ls, idx as int, ind as nat) == enclosing_line(ls, j as int, ind as nat),
        decreases j,
    {
        assert(ls[j - 1] == lines@[j - 1]@);
        if is_code_line(&lines[j - 1]) && leading_whitespace_chars(&lines[j - 1]).len() < ind {
            return Some(j - 1);
        }
        j -= 1;
    }
    None
}

/// Suggests a fix for the missing-User-Agent finding at `line` (1-based) in
/// `source`. Returns `None` if `line` is out of range or the call on that
/// line doesn't match a request shape this fixer knows how to patch. A
/// Python call gets a `headers` dictionary declared above the loop that
/// encloses it (or just above the call) and passed as `headers=headers`; a
/// `fetch` call gets an options object with the header.
#[verifier::rlimit(40)]
pub fn suggest_user_agent_fix(source: &str, line: usize) -> (r: Option<FixSuggestion>)
    ensures
        match r {
            Some(fix) => spec_fix(source@, line as int) == Some(fix@),
            None => spec_fix(source@, line as int) is None,
        },
{
    let chars = str_chars(source);
    let mut lines = split_lines(&chars);
    let ghost ls = views(lines@);
    if line == 0 || line > lines.len() {
        return None;
    }
    let idx = line - 1;
    let original = copy_chars(&lines[idx]);
    assert(original@ == ls[idx as int]);
    let (kind, patched) = match patch_call(&original) {
        Some(p) => p,
        None => return None,
    };
    let ghost patched_view = patched@;
    let mut diff = String::new();
    match kind {
        CallKind::Python => {
            let at: usize = match enclosing_block(&lines, idx) {
                Some(j) => if opens_loop_line(&lines[j]) {
                    j
                } else {
                    idx
                },
                None => idx,
            };
            assert(ls[at as int] == lines@[at as int]@);
            assert(at as int == header_index(ls, idx as int));
            let mut header = leading_whitespace_chars(&lines[at]);
            extend_str(&mut header, "headers = {\"User-Agent\": \"");
            extend_str(&mut header, DEFAULT_USER_AGENT);
            extend_str(&mut header, "\"}");
            assert(header@ =~= header_line(ls[at as int]));
            let count: usize = idx - at + 1;
            diff.append("@@ -");
            push_decimal(&mut diff, at as u128 + 1);
            if count != 1 {
                diff.append(",");
                push_decimal(&mut diff, count as u128);
            }
            diff.append(" +");
            push_decimal(&mut diff, at as u128 + 1);
            diff.append(",");
            push_decimal(&mut diff, count as u128 + 1);
            diff.append(" @@\n+");
            push_chars(&mut diff, &header);
            let ghost head = diff@;
            let mut k: usize = at;
            assert(ls.subrange(at as int, at as int) =~= Seq::<Seq<char>>::empty());
            while k < idx
                invariant
                    at <= k <= idx < lines.len(),
                    ls == views(lines@),
                    diff@ == head + context_lines(ls.subrange(at as int, k as int)),
                decreases idx - k,
            {
                diff.push('\n');
                diff.push(' ');
                push_chars(&mut diff, &lines[k]);
                assert(ls.subrange(at as int, k + 1).drop_last() =~= ls.subrange(
                    at as int,
                    k as int,
                ));
                assert(ls.subrange(at as int, k + 1).last() == lines@[k as int]@);
                k += 1;
            }
            diff.append("\n-");
            push_chars(&mut diff, &original);
            diff.append("\n+");
            push_chars(&mut diff, &patched);
            assert(ls.subrange(at as int, idx as int).len() + 1 == count);
            assert(diff@ =~= python_diff(
                (at + 1) as nat,
                header@,
                ls.subrange(at as int, idx as int),
                original@,
                patched@,
            ));
            let ghost header_view = header@;
            lines.set(idx, patched);
            lines.insert(at, header);
            assert(views(lines@) =~= ls.update(idx as int, patched_view).insert(
                at as int,
                header_view,
            ));
        },
        CallKind::Fetch => {
            diff.append("@@ -");
            push_decimal(&mut diff, line as u128);
            diff.append(" +");
            push_decimal(&mut diff, line as u128);
            diff.append(" @@\n-");
            push_chars(&mut diff, &original);
            diff.append("\n+");
            push_chars(&mut diff, &patched);
            assert(diff@ =~= fetch_diff(line as nat, original@, patched@));
            lines.set(idx, patched);
            assert(views(lines@) =~= ls.update(idx as int, patched_view));
        },
    }
    let patched_source = join_with_newlines(&lines);
    Some(FixSuggestion { diff, patched_source })
}

/// A fix as the JSON object `{"diff":"...","patched_source":"..."}`.
pub open spec fn fix_json(v: (Seq<char>, Seq<char>)) -> Seq<char> {
    "{\"diff\":"@ + spec_encode(v.0) + ",\"patched_source\":"@ + spec_encode(v.1)
        + "}"@
}

impl FixSuggestion {
    /// The fix as hand-rolled JSON: `{"diff":"...","patched_source":"..."}`.
    pub fn to_json(&self) -> (r: String)
        ensures
            r@ == fix_json(self@),
    {
        let mut out = String::new();
        out.append("{\"diff\":");
        push_encoded(&mut out, self.diff.as_str());
        out.append(",\"patched_source\":");
        push_encoded(&mut out, self.patched_source.as_str());
        out.append("}");
        assert(out@ =~= fix_json(self@));
        out
    }
}


// ---------------------------------------------------------------------------
// Laws
// ---------------------------------------------------------------------------
/// A fix exists only for a 1-based line number within the source.
pub proof fn lemma_fix_only_for_existing_lines(source: Seq<char>, line: int)
    requires
        spec_fix(source, line) is Some,
    ensures
        1 <= line <= text_lines(source).len(),
{
}

/// The JSON form of a fix holds no raw control character, however the
/// pasted source is written: everything user-controlled goes through the
/// RFC 8259 encoder.
pub proof fn lemma_fix_json_has_no_raw_control_chars(v: (Seq<char>, Seq<char>))
    ensures
        no_control(fix_json(v)),
{
    reveal_strlit("{\"diff\":");
    reveal_strlit(",\"patched_source\":");
    reveal_strlit("}");
    lemma_encode_has_no_raw_control_chars(v.0);
    lemma_encode_has_no_raw_control_chars(v.1);
    let a = "{\"diff\":"@;
    let b = ",\"patched_source\":"@;
    let c = "}"@;
    assert(no_control(a));
    assert(no_control(b));
    assert(no_control(c));
    lemma_no_control_concat(a, spec_encode(v.0));
    lemma_no_control_concat(a + spec_encode(v.0), b);
    lemma_no_control_concat(a + spec_encode(v.0) + b, spec_encode(v.1));
    lemma_no_control_concat(a + spec_encode(v.0) + b + spec_encode(v.1), c);
}

/// A fix as a JSON value: `{"diff": <string>, "patched_source": <string>}`.
pub open spec fn fix_value(v: (Seq<char>, Seq<char>)) -> JsonValue {
    JsonValue::Object(
        seq![("diff"@, JsonValue::Str(v.0)), ("patched_source"@, JsonValue::Str(v.1))],
    )
}

proof fn lemma_fix_text(v: (Seq<char>, Seq<char>))
    ensures
        to_text(fix_value(v)) == fix_json(v),
{
    reveal_strlit("diff");
    reveal_strlit("patched_source");
    reveal_strlit("{\"diff\":");
    reveal_strlit(",\"patched_source\":");
    reveal_strlit("}");
    lemma_plain_encode("diff"@);
    lemma_plain_encode("patched_source"@);
    let ms = seq![("diff"@, JsonValue::Str(v.0)), ("patched_source"@, JsonValue::Str(v.1))];
    let tail = ms.drop_first();
    assert(ms.len() == 2 && ms[0] == ("diff"@, JsonValue::Str(v.0)));
    assert(tail.len() == 1 && tail[0] == ("patched_source"@, JsonValue::Str(v.1)));
    assert(to_text(JsonValue::Str(v.0)) == spec_encode(v.0));
    assert(to_text(JsonValue::Str(v.1)) == spec_encode(v.1));
    assert(members_text(tail) == spec_encode("patched_source"@) + seq![':'] + spec_encode(v.1));
    assert(members_text(ms) == spec_encode("diff"@) + seq![':'] + spec_encode(v.0) + seq![',']
        + members_text(tail));
    assert(to_text(fix_value(v)) =~= fix_json(v));
}

/// The JSON form of a fix is a valid JSON text (RFC 8259): read back, it is
/// the object whose `diff` member is the diff and whose `patched_source`
/// member is the patched source, whatever characters they hold.
pub proof fn lemma_fix_json_is_valid_json(v: (Seq<char>, Seq<char>))
    ensures
        parse_json(fix_json(v)) == Some(fix_value(v)),
{
    let ms = seq![("diff"@, JsonValue::Str(v.0)), ("patched_source"@, JsonValue::Str(v.1))];
    let tail = ms.drop_first();
    assert(value_wf(JsonValue::Str(v.0)));
    assert(value_wf(JsonValue::Str(v.1)));
    assert(tail.len() == 1 && tail[0].1 == JsonValue::Str(v.1));
    assert(tail.drop_first().len() == 0);
    assert(members_wf(tail.drop_first()));
    assert(members_wf(tail));
    assert(ms[0].1 == JsonValue::Str(v.0));
    assert(members_wf(ms));
    lemma_fix_text(v);
    lemma_json_reads_back(fix_value(v));
}

/// A call that starts inside a string literal is never patched.
pub proof fn lemma_call_inside_string_is_declined(source: Seq<char>, line: int, kind: CallKind, open: int)
    requires
        1 <= line <= text_lines(source).len(),
        call_open(text_lines(source)[line - 1]) == Some((kind, open)),
        scan(text_lines(source)[line - 1].take(open)).0 is Some,
    ensures
        spec_fix(source, line) is None,
{
}

/// A `fetch` call that already passes a second (options) argument is never
/// patched.
pub proof fn lemma_fetch_with_options_is_declined(source: Seq<char>, line: int, open: int, close: int)
    requires
        1 <= line <= text_lines(source).len(),
        call_open(text_lines(source)[line - 1]) == Some((CallKind::Fetch, open)),
        close_from(text_lines(source)[line - 1], open + 1, 1) == Some(close),
        top_level_comma(trim(text_lines(source)[line - 1].subrange(open + 1, close))),
    ensures
        spec_fix(source, line) is None,
{
}

/// The first occurrence of a non-empty marker gives a position in the line.
proof fn lemma_marker_paren_in_range(line: Seq<char>, m: Seq<char>)
    requires
        m.len() > 0,
    ensures
        match marker_paren(line, m) {
            Some(p) => 0 <= p < line.len(),
            None => true,
        },
{
    lemma_find(line, m);
}

/// The earliest of the non-empty markers gives a position in the line.
proof fn lemma_earliest_paren_in_range(line: Seq<char>, markers: Seq<Seq<char>>)
    requires
        forall|k: int| 0 <= k < markers.len() ==> (#[trigger] markers[k]).len() > 0,
    ensures
        match earliest_paren(line, markers) {
            Some(p) => 0 <= p < line.len(),
            None => true,
        },
    decreases markers.len(),
{
    if markers.len() > 0 {
        let init = markers.drop_last();
        assert forall|k: int| 0 <= k < init.len() implies (#[trigger] init[k]).len() > 0 by {
            assert(init[k] == markers[k]);
        }
        lemma_earliest_paren_in_range(line, init);
        assert(markers.last() == markers[markers.len() - 1]);
        lemma_marker_paren_in_range(line, markers.last());
    }
}

/// The call to patch opens inside the line.
proof fn lemma_call_open_in_range(line: Seq<char>)
    ensures
        match call_open(line) {
            Some((_, p)) => 0 <= p < line.len(),
            None => true,
        },
{
    reveal_strlit("requests.get(");
    reveal_strlit("requests.post(");
    reveal_strlit(".get(");
    reveal_strlit(".post(");
    reveal_strlit("fetch(");
    let ms = python_call_markers();
    assert forall|k: int| 0 <= k < ms.len() implies (#[trigger] ms[k]).len() > 0 by {}
    lemma_earliest_paren_in_range(line, ms);
    lemma_marker_paren_in_range(line, fetch_call_marker());
}

/// The closing parenthesis lies at or after the scan start, inside the line.
proof fn lemma_close_from_in_range(line: Seq<char>, i: int, depth: nat)
    ensures
        match close_from(line, i, depth) {
            Some(c) => i <= c < line.len(),
            None => true,
        },
    decreases line.len() - i,
{
    if 0 <= i < line.len() {
        if line[i] == '(' {
            lemma_close_from_in_range(line, i + 1, depth + 1);
        } else if line[i] == ')' {
            if depth > 1 {
                lemma_close_from_in_range(line, i + 1, (depth - 1) as nat);
            }
        } else {
            lemma_close_from_in_range(line, i + 1, depth);
        }
    }
}

/// The number of `(` minus the number of `)` in `s`.
pub open spec fn paren_balance(s: Seq<char>) -> int
    decreases s.len(),
{
    if s.len() == 0 {
        0
    } else {
        paren_balance(s.drop_last()) + if s.last() == '(' {
            1int
        } else if s.last() == ')' {
            -1int
        } else {
            0int
        }
    }
}

/// `line[close]` is the `)` that balances the `(` at `line[open]`, counting
/// parentheses only: the parentheses from `open` through `close` balance, and
/// none of the shorter stretches from `open` does.
pub open spec fn closes_call(line: Seq<char>, open: int, close: int) -> bool {
    &&& 0 <= open < close < line.len()
    &&& line[open] == '('
    &&& line[close] == ')'
    &&& paren_balance(line.subrange(open, close + 1)) == 0
    &&& forall|j: int| open < j <= close ==> paren_balance(#[trigger] line.subrange(open, j)) > 0
}

proof fn lemma_balance_step(line: Seq<char>, open: int, i: int)
    requires
        0 <= open <= i < line.len(),
    ensures
        paren_balance(line.subrange(open, i + 1)) == paren_balance(line.subrange(open, i)) + if line[i]
            == '(' {
            1int
        } else if line[i] == ')' {
            -1int
        } else {
            0int
        },
{
    let s = line.subrange(open, i + 1);
    assert(s.drop_last() =~= line.subrange(open, i));
    assert(s.last() == line[i]);
}

/// The scan for the closing parenthesis stops at the `)` that balances the
/// call's `(`.
proof fn lemma_close_from_balances(line: Seq<char>, open: int, i: int, depth: nat)
    requires
        0 <= open < i <= line.len(),
        line[open] == '(',
        depth >= 1,
        paren_balance(line.subrange(open, i)) == depth,
        forall|j: int| open < j <= i ==> paren_balance(#[trigger] line.subrange(open, j)) > 0,
    ensures
        close_from(line, i, depth) matches Some(c) ==> closes_call(line, open, c),
    decreases line.len() - i,
{
    if i < line.len() {
        lemma_balance_step(line, open, i);
        if line[i] == '(' {
            lemma_close_from_balances(line, open, i + 1, depth + 1);
        } else if line[i] == ')' {
            if depth > 1 {
                lemma_close_from_balances(line, open, i + 1, (depth - 1) as nat);
            }
        } else {
            lemma_close_from_balances(line, open, i + 1, depth);
        }
    }
}

/// A marker that ends with `(` is found with its `(` in the line.
proof fn lemma_marker_paren_opens(line: Seq<char>, m: Seq<char>)
    requires
        m.len() > 0,
        m.last() == '(',
    ensures
        marker_paren(line, m) matches Some(p) ==> 0 <= p < line.len() && line[p] == '(',
{
    lemma_find(line, m);
    if find(line, m) is Some {
        let i = find(line, m)->0;
        assert(line.subrange(i, i + m.len())[m.len() - 1] == line[i + m.len() - 1]);
    }
}

proof fn lemma_earliest_paren_opens(line: Seq<char>, markers: Seq<Seq<char>>)
    requires
        forall|k: int|
            0 <= k < markers.len() ==> (#[trigger] markers[k]).len() > 0 && markers[k].last()
                == '(',
    ensures
        earliest_paren(line, markers) matches Some(p) ==> 0 <= p < line.len() && line[p] == '(',
    decreases markers.len(),
{
    if markers.len() > 0 {
        let init = markers.drop_last();
        assert forall|k: int| 0 <= k < init.len() implies (#[trigger] init[k]).len() > 0
            && init[k].last() == '(' by {
            assert(init[k] == markers[k]);
        }
        lemma_earliest_paren_opens(line, init);
        assert(markers.last() == markers[markers.len() - 1]);
        lemma_marker_paren_opens(line, markers.last());
    }
}

/// The call to patch is found at its `(`.
proof fn lemma_call_open_is_paren(line: Seq<char>)
    ensures
        call_open(line) matches Some((_, p)) ==> 0 <= p < line.len() && line[p] == '(',
{
    reveal_strlit("requests.get(");
    reveal_strlit("requests.post(");
    reveal_strlit(".get(");
    reveal_strlit(".post(");
    reveal_strlit("fetch(");
    let ms = python_call_markers();
    assert forall|k: int| 0 <= k < ms.len() implies (#[trigger] ms[k]).len() > 0 && ms[k].last()
        == '(' by {}
    lemma_earliest_paren_opens(line, ms);
    lemma_marker_paren_opens(line, fetch_call_marker());
}

/// A patched call keeps its whole argument text: the patch changes only
/// what lies between the call's `(` and the `)` that balances it (counting
/// parentheses only, so brackets and braces inside the arguments stay
/// inside). A Python call gets `headers=headers` as its last argument, after
/// the trimmed arguments; a `fetch` call gets the options object after its
/// one argument.
pub proof fn lemma_patch_keeps_the_call_arguments(line: Seq<char>)
    requires
        patch_call_line(line) is Some,
    ensures
        call_open(line) matches Some((kind, open)) && exists|close: int|
            #![trigger line.subrange(open + 1, close)]
            closes_call(line, open, close) && ({
                let args = trim(line.subrange(open + 1, close));
                let mid = match kind {
                    CallKind::Python => if args.len() == 0 {
                        "headers=headers"@
                    } else {
                        args + ", headers=headers"@
                    },
                    CallKind::Fetch => args + ", { headers: { \"User-Agent\": \""@
                        + DEFAULT_USER_AGENT@ + "\" } }"@,
                };
                patch_call_line(line) == Some((kind, line.subrange(0, open + 1) + mid + line.subrange(close, line.len() as int)))
            }),
{
    lemma_call_open_is_paren(line);
    let (kind, open) = call_open(line)->0;
    assert(line.subrange(open, open + 1) =~= seq!['(']);
    assert(paren_balance(seq!['(']) == 1) by {
        let one = seq!['('];
        assert(one.drop_last() =~= Seq::<char>::empty());
        assert(paren_balance(Seq::<char>::empty()) == 0);
        assert(one.last() == '(');
        assert(paren_balance(one) == paren_balance(one.drop_last()) + 1);
    }
    lemma_close_from_balances(line, open, open + 1, 1);
    let close = close_from(line, open + 1, 1)->0;
    assert(line.take(open + 1) =~= line.subrange(0, open + 1));
    assert(line.skip(close) =~= line.subrange(close, line.len() as int));
    assert(closes_call(line, open, close));
}

/// The texts that a fix adds hold no newline.
proof fn lemma_fix_texts_have_no_newline()
    ensures
        no_newline("headers=headers"@),
        no_newline(", headers=headers"@),
        no_newline(fetch_options()),
        no_newline("headers = {\"User-Agent\": \""@ + DEFAULT_USER_AGENT@ + "\"}"@),
        ("headers = {\"User-Agent\": \""@ + DEFAULT_USER_AGENT@ + "\"}"@).len() > 0,
        ("headers = {\"User-Agent\": \""@ + DEFAULT_USER_AGENT@ + "\"}"@).last() == '}',
{
    reveal_strlit("headers=headers");
    reveal_strlit(", headers=headers");
    reveal_strlit(", { headers: { \"User-Agent\": \"");
    reveal_strlit("\" } }");
    reveal_strlit("headers = {\"User-Agent\": \"");
    reveal_strlit("\"}");
    reveal_strlit("polite-bot/1.0 (+https://github.com/ctkrug/polite-bot)");
    let ua = DEFAULT_USER_AGENT@;
    assert(no_newline(ua));
    lemma_no_newline_concat(", { headers: { \"User-Agent\": \""@, ua);
    lemma_no_newline_concat(", { headers: { \"User-Agent\": \""@ + ua, "\" } }"@);
    lemma_no_newline_concat("headers = {\"User-Agent\": \""@, ua);
    lemma_no_newline_concat("headers = {\"User-Agent\": \""@ + ua, "\"}"@);
}

/// A patched call line holds no newline, is not empty, and ends as the
/// original line ends.
proof fn lemma_patched_line_shape(line: Seq<char>)
    requires
        no_newline(line),
    ensures
        match patch_call_line(line) {
            Some((_, p)) => no_newline(p) && p.len() > 0 && line.len() > 0 && p.last()
                == line.last(),
            None => true,
        },
{
    lemma_call_open_in_range(line);
    lemma_fix_texts_have_no_newline();
    match call_open(line) {
        Some((kind, open)) => {
            lemma_close_from_in_range(line, open + 1, 1);
            match close_from(line, open + 1, 1) {
                Some(close) => {
                    let inner = line.subrange(open + 1, close);
                    let args = trim(inner);
                    lemma_no_newline_subrange(line, open + 1, close);
                    lemma_trim_is_subrange(inner);
                    let (a, b) = choose|a: int, b: int|
                        0 <= a <= b <= inner.len() && trim(inner) == inner.subrange(a, b);
                    lemma_no_newline_subrange(inner, a, b);
                    let head = line.take(open + 1);
                    let tail = line.skip(close);
                    assert(head =~= line.subrange(0, open + 1));
                    assert(tail =~= line.subrange(close, line.len() as int));
                    lemma_no_newline_subrange(line, 0, open + 1);
                    lemma_no_newline_subrange(line, close, line.len() as int);
                    let mid = match kind {
                        CallKind::Python => python_arguments(args),
                        CallKind::Fetch => args + fetch_options(),
                    };
                    lemma_no_newline_concat(args, ", headers=headers"@);
                    lemma_no_newline_concat(args, fetch_options());
                    assert(no_newline(mid));
                    lemma_no_newline_concat(head, mid);
                    lemma_no_newline_concat(head + mid, tail);
                    assert(tail.last() == line.last());
                    assert((head + mid + tail).last() == tail.last());
                },
                None => {},
            }
        },
        None => {},
    }
}

/// For a source whose lines before the last do not end in a carriage return
/// and whose last line is not empty, the fixed source reads back line by
/// line as the original lines with the call line patched and, for a Python
/// call, the header line inserted at `header_index` (above the loop that
/// encloses the call, at the loop's indentation, or else just above the
/// call, at its indentation): every other line is kept as it was, in order.
/// The diff adds the header line, keeps the lines between it and the call as
/// context, and replaces the call line with the patched one.
pub proof fn lemma_fix_keeps_other_lines(source: Seq<char>, line: int)
    requires
        forall|i: int|
            0 <= i < text_lines(source).len() - 1 ==> no_trailing_cr(
                #[trigger] text_lines(source)[i],
            ),
        text_lines(source).len() > 0 ==> text_lines(source).last().len() > 0,
        spec_fix(source, line) is Some,
    ensures
        match patch_call_line(text_lines(source)[line - 1]) {
            Some((CallKind::Python, patched)) => {
                let ls = text_lines(source);
                let at = header_index(ls, line - 1);
                &&& at <= line - 1
                &&& text_lines((spec_fix(source, line)->0).1) == ls.update(line - 1, patched).insert(
                    at,
                    header_line(ls[at]),
                )
                &&& (spec_fix(source, line)->0).0 == python_diff(
                    (at + 1) as nat,
                    header_line(ls[at]),
                    ls.subrange(at, line - 1),
                    ls[line - 1],
                    patched,
                )
            },
            Some((CallKind::Fetch, patched)) => {
                &&& text_lines((spec_fix(source, line)->0).1) == text_lines(source).update(
                    line - 1,
                    patched,
                )
                &&& (spec_fix(source, line)->0).0 == fetch_diff(
                    line as nat,
                    text_lines(source)[line - 1],
                    patched,
                )
            },
            None => false,
        },
{
    let ls = text_lines(source);
    let idx = line - 1;
    let orig = ls[idx];
    lemma_text_lines_have_no_newline(source);
    assert(no_newline(orig));
    lemma_patched_line_shape(orig);
    lemma_fix_texts_have_no_newline();
    let (kind, patched) = patch_call_line(orig)->0;
    let upd = ls.update(idx, patched);
    assert forall|i: int| 0 <= i < upd.len() implies no_newline(#[trigger] upd[i]) by {
        if i != idx {
            assert(upd[i] == ls[i]);
        }
    }
    assert forall|i: int| 0 <= i < upd.len() - 1 implies no_trailing_cr(#[trigger] upd[i]) by {
        if i != idx {
            assert(upd[i] == ls[i]);
        } else {
            assert(no_trailing_cr(ls[i]));
        }
    }
    assert(upd.last().len() > 0) by {
        if idx == ls.len() - 1 {
            assert(upd.last() == patched);
        } else {
            assert(upd.last() == ls.last());
        }
    }
    match kind {
        CallKind::Python => {
            let at = header_index(ls, idx);
            lemma_enclosing_line_before(ls, idx, indent(ls[idx]));
            assert(0 <= at <= idx);
            let anchor = ls[at];
            let h = header_line(anchor);
            lemma_leading_ws_is_prefix(anchor);
            let k = choose|k: int| 0 <= k <= anchor.len() && leading_ws(anchor) == anchor.take(k);
            assert(anchor.take(k) =~= anchor.subrange(0, k));
            assert(no_newline(anchor));
            lemma_no_newline_subrange(anchor, 0, k);
            let lit = "headers = {\"User-Agent\": \""@ + DEFAULT_USER_AGENT@ + "\"}"@;
            lemma_no_newline_concat(leading_ws(anchor), lit);
            assert(h =~= leading_ws(anchor) + lit);
            assert(h.last() == lit.last()) by {
                assert(h[h.len() - 1] == lit[lit.len() - 1]);
            }
            let new_ls = upd.insert(at, h);
            assert forall|i: int| 0 <= i < new_ls.len() implies no_newline(#[trigger] new_ls[i]) by {
                if i < at {
                    assert(new_ls[i] == upd[i]);
                } else if i > at {
                    assert(new_ls[i] == upd[i - 1]);
                }
            }
            assert forall|i: int| 0 <= i < new_ls.len() - 1 implies no_trailing_cr(
                #[trigger] new_ls[i],
            ) by {
                if i < at {
                    assert(new_ls[i] == upd[i]);
                } else if i > at {
                    assert(new_ls[i] == upd[i - 1]);
                }
            }
            assert(new_ls.last() == upd.last());
            lemma_lines_of_join(new_ls);
        },
        CallKind::Fetch => {
            lemma_lines_of_join(upd);
        },
    }
}

/// The block header found for a line lies before it.
proof fn lemma_enclosing_line_before(lines: Seq<Seq<char>>, j: int, ind: nat)
    ensures
        match enclosing_line(lines, j, ind) {
            Some(k) => 0 <= k < j,
            None => true,
        },
    decreases j,
{
    if j > 0 {
        lemma_enclosing_line_before(lines, j - 1, ind);
    }
}

/// The header line for a Python call inside a loop goes above that loop, at
/// the loop's indentation; for a call in no loop (at top level, or directly
/// in a function), it goes just above the call, at the call's indentation.
pub proof fn lemma_header_placement(lines: Seq<Seq<char>>, idx: int)
    requires
        0 <= idx < lines.len(),
    ensures
        match enclosing_line(lines, idx, indent(lines[idx])) {
            Some(j) => {
                &&& 0 <= j < idx
                &&& is_code(lines[j]) && indent(lines[j]) < indent(lines[idx])
                &&& forall|m: int|
                    j < m < idx ==> !(is_code(#[trigger] lines[m]) && indent(lines[m]) < indent(
                        lines[idx],
                    ))
                &&& header_index(lines, idx) == if opens_loop(lines[j]) {
                    j
                } else {
                    idx
                }
            },
            None => header_index(lines, idx) == idx,
        },
{
    lemma_enclosing_line_is_nearest(lines, idx, indent(lines[idx]));
}

/// `enclosing_line` finds the nearest qualifying line before `j`.
proof fn lemma_enclosing_line_is_nearest(lines: Seq<Seq<char>>, j: int, ind: nat)
    ensures
        match enclosing_line(lines, j, ind) {
            Some(k) => 0 <= k < j && is_code(lines[k]) && indent(lines[k]) < ind && forall|m: int|
                k < m < j ==> !(is_code(#[trigger] lines[m]) && indent(lines[m]) < ind),
            None => true,
        },
    decreases j,
{
    if j > 0 {
        lemma_enclosing_line_is_nearest(lines, j - 1, ind);
    }
}

} // verus!
