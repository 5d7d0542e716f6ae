//! Character-sequence utilities shared by the analyzer, the fixer and the
//! robots.txt parser: line splitting, substring search, ASCII lower-casing,
//! Unicode whitespace trimming and decimal rendering.
//!
//! Text is handled as sequences of `char`; every position in this crate is a
//! character index.

use vstd::prelude::*;

verus! {

/// Trusted: `String::push` appends exactly the one given character to the
/// string (std documents it as "Appends the given char to the end of this
/// String").
pub assume_specification[ String::push ](s: &mut String, ch: char)
    ensures
        final(s)@ == old(s)@.push(ch),
;

/// The views of a vector of character vectors.
pub open spec fn views(v: Seq<Vec<char>>) -> Seq<Seq<char>> {
    v.map_values(|l: Vec<char>| l@)
}

/// The characters of `s`, in order.
pub fn str_chars(s: &str) -> (r: Vec<char>)
    ensures
        r@ == s@,
{
    let mut r: Vec<char> = Vec::new();
    for c in it: s.chars()
        invariant
            r@ == it.seq().take(it.index() as int),
            it.seq() == s@,
    {
        r.push(c);
    }
    r
}

/// A `String` holding the characters of `v`.
pub fn string_of(v: &Vec<char>) -> (r: String)
    ensures
        r@ == v@,
{
    let mut r = String::new();
    let mut i: usize = 0;
    while i < v.len()
        invariant
            i <= v.len(),
            r@ == v@.take(i as int),
        decreases v.len() - i,
    {
        r.push(v[i]);
        assert(v@.take(i + 1) =~= v@.take(i as int).push(v@[i as int]));
        i += 1;
    }
    assert(v@.take(v.len() as int) =~= v@);
    r
}

/// Appends the characters of `v` to `out`.
pub fn push_chars(out: &mut String, v: &Vec<char>)
    ensures
        final(out)@ == old(out)@ + v@,
{
    let ghost start = out@;
    let mut i: usize = 0;
    while i < v.len()
        invariant
            i <= v.len(),
            out@ == start + v@.take(i as int),
        decreases v.len() - i,
    {
        out.push(v[i]);
        assert(v@.take(i + 1) =~= v@.take(i as int).push(v@[i as int]));
        i += 1;
    }
    assert(v@.take(v.len() as int) =~= v@);
}

// ---------------------------------------------------------------------------
// Lines
// ---------------------------------------------------------------------------
/// A line with one trailing carriage return removed, if it has one.
pub open spec fn strip_cr(line: Seq<char>) -> Seq<char> {
    if line.len() > 0 && line.last() == '\r' {
        line.drop_last()
    } else {
        line
    }
}

/// The lines of `rest`, given that `cur` is the part of the current line
/// already read. A line ends at `\n`; a `\r` just before that `\n` is not part
/// of the line; the text after the last `\n` is a line when it is not empty.
pub open spec fn lines_from(rest: Seq<char>, cur: Seq<char>) -> Seq<Seq<char>>
    decreases rest.len(),
{
    if rest.len() == 0 {
        if cur.len() == 0 {
            seq![]
        } else {
            seq![cur]
        }
    } else if rest[0] == '\n' {
        seq![strip_cr(cur)] + lines_from(rest.drop_first(), seq![])
    } else {
        lines_from(rest.drop_first(), cur.push(rest[0]))
    }
}

/// The lines of a text, as `str::lines` yields them: split at `\n` or
/// `\r\n`, with the final line ending optional.
pub open spec fn text_lines(s: Seq<char>) -> Seq<Seq<char>> {
    lines_from(s, seq![])
}

/// `s` holds no `\n`.
pub open spec fn no_newline(s: Seq<char>) -> bool {
    forall|j: int| 0 <= j < s.len() ==> s[j] != '\n'
}

/// `s` does not end with `\r`.
pub open spec fn no_trailing_cr(s: Seq<char>) -> bool {
    !(s.len() > 0 && s.last() == '\r')
}

proof fn lemma_lines_from_no_newline(rest: Seq<char>, cur: Seq<char>)
    requires
        no_newline(cur),
    ensures
        forall|i: int| 0 <= i < lines_from(rest, cur).len() ==> no_newline(
            #[trigger] lines_from(rest, cur)[i],
        ),
    decreases rest.len(),
{
    if rest.len() == 0 {
        if cur.len() > 0 {
            assert(lines_from(rest, cur)[0] == cur);
        }
    } else if rest[0] == '\n' {
        lemma_lines_from_no_newline(rest.drop_first(), seq![]);
        let tail = lines_from(rest.drop_first(), seq![]);
        assert(lines_from(rest, cur) == seq![strip_cr(cur)] + tail);
        assert(no_newline(strip_cr(cur))) by {
            if cur.len() > 0 && cur.last() == '\r' {
                assert forall|j: int| 0 <= j < cur.drop_last().len() implies cur.drop_last()[j]
                    != '\n' by {
                    assert(cur.drop_last()[j] == cur[j]);
                }
            }
        }
        assert forall|i: int| 0 <= i < lines_from(rest, cur).len() implies no_newline(
            #[trigger] lines_from(rest, cur)[i],
        ) by {
            if i == 0 {
                assert(lines_from(rest, cur)[0] == strip_cr(cur));
            } else {
                assert(lines_from(rest, cur)[i] == tail[i - 1]);
            }
        }
    } else {
        assert forall|j: int| 0 <= j < cur.push(rest[0]).len() implies cur.push(rest[0])[j]
            != '\n' by {
            if j < cur.len() {
                assert(cur.push(rest[0])[j] == cur[j]);
            }
        }
        lemma_lines_from_no_newline(rest.drop_first(), cur.push(rest[0]));
        assert(lines_from(rest, cur) == lines_from(rest.drop_first(), cur.push(rest[0])));
    }
}

/// No line holds a `\n`.
pub proof fn lemma_text_lines_have_no_newline(s: Seq<char>)
    ensures
        forall|i: int| 0 <= i < text_lines(s).len() ==> no_newline(#[trigger] text_lines(s)[i]),
{
    lemma_lines_from_no_newline(s, seq![]);
}

/// The lines of text without a `\n`: the text itself, when not empty.
proof fn lemma_lines_from_single(a: Seq<char>, cur: Seq<char>)
    requires
        no_newline(a),
    ensures
        lines_from(a, cur) == (if (cur + a).len() == 0 {
            Seq::<Seq<char>>::empty()
        } else {
            seq![cur + a]
        }),
    decreases a.len(),
{
    if a.len() == 0 {
        assert(cur + a =~= cur);
    } else {
        assert(a.drop_first() + Seq::<char>::empty() =~= a.drop_first());
        lemma_lines_from_single(a.drop_first(), cur.push(a[0]));
        assert(cur.push(a[0]) + a.drop_first() =~= cur + a);
    }
}

/// Reading a line that ends at a `\n`.
proof fn lemma_lines_from_line_then_rest(a: Seq<char>, b: Seq<char>, cur: Seq<char>)
    requires
        no_newline(a),
    ensures
        lines_from(a + seq!['\n'] + b, cur) == seq![strip_cr(cur + a)] + lines_from(b, seq![]),
    decreases a.len(),
{
    let t = a + seq!['\n'] + b;
    if a.len() == 0 {
        assert(t[0] == '\n');
        assert(t.drop_first() =~= b);
        assert(cur + a =~= cur);
    } else {
        assert(t[0] == a[0]);
        assert(t.drop_first() =~= a.drop_first() + seq!['\n'] + b);
        lemma_lines_from_line_then_rest(a.drop_first(), b, cur.push(a[0]));
        assert(cur.push(a[0]) + a.drop_first() =~= cur + a);
    }
}

/// Lines joined with `\n` between them.
pub open spec fn join_lines(ls: Seq<Seq<char>>) -> Seq<char>
    decreases ls.len(),
{
    if ls.len() == 0 {
        seq![]
    } else if ls.len() == 1 {
        ls[0]
    } else {
        join_lines(ls.drop_last()) + seq!['\n'] + ls.last()
    }
}

/// Joining from the front.
proof fn lemma_join_front(ls: Seq<Seq<char>>)
    requires
        ls.len() >= 2,
    ensures
        join_lines(ls) == ls[0] + seq!['\n'] + join_lines(ls.drop_first()),
    decreases ls.len(),
{
    if ls.len() == 2 {
        assert(ls.drop_last().len() == 1);
        assert(ls.drop_first().len() == 1);
        assert(join_lines(ls.drop_last()) == ls[0]);
        assert(join_lines(ls.drop_first()) == ls[1]);
        assert(ls.last() == ls[1]);
    } else {
        let init = ls.drop_last();
        lemma_join_front(init);
        assert(init.drop_first() =~= ls.drop_first().drop_last());
        assert(ls.drop_first().last() == ls.last());
        assert(join_lines(ls) =~= ls[0] + seq!['\n'] + join_lines(ls.drop_first()));
    }
}

/// Lines without `\n`, of which none but the last ends with `\r` and the
/// last is not empty, read back from their join as themselves.
pub proof fn lemma_lines_of_join(ls: Seq<Seq<char>>)
    requires
        ls.len() > 0,
        forall|i: int| 0 <= i < ls.len() ==> no_newline(#[trigger] ls[i]),
        forall|i: int| 0 <= i < ls.len() - 1 ==> no_trailing_cr(#[trigger] ls[i]),
        ls.last().len() > 0,
    ensures
        text_lines(join_lines(ls)) == ls,
    decreases ls.len(),
{
    if ls.len() == 1 {
        lemma_lines_from_single(ls[0], seq![]);
        assert(Seq::<char>::empty() + ls[0] =~= ls[0]);
        assert(seq![ls[0]] =~= ls);
    } else {
        let rest = ls.drop_first();
        assert forall|i: int| 0 <= i < rest.len() implies no_newline(#[trigger] rest[i]) by {
            assert(rest[i] == ls[i + 1]);
        }
        assert forall|i: int| 0 <= i < rest.len() - 1 implies no_trailing_cr(#[trigger] rest[i]) by {
            assert(rest[i] == ls[i + 1]);
        }
        lemma_lines_of_join(rest);
        lemma_join_front(ls);
        assert(no_newline(ls[0]));
        assert(no_trailing_cr(ls[0]));
        lemma_lines_from_line_then_rest(ls[0], join_lines(rest), seq![]);
        assert(Seq::<char>::empty() + ls[0] =~= ls[0]);
        assert(strip_cr(ls[0]) == ls[0]);
        assert(seq![ls[0]] + rest =~= ls);
    }
}

/// Joined texts without `\n` hold no `\n`.
pub proof fn lemma_no_newline_concat(a: Seq<char>, b: Seq<char>)
    requires
        no_newline(a),
        no_newline(b),
    ensures
        no_newline(a + b),
{
    assert forall|j: int| 0 <= j < (a + b).len() implies (a + b)[j] != '\n' by {
        if j < a.len() {
            assert((a + b)[j] == a[j]);
        } else {
            assert((a + b)[j] == b[j - a.len()]);
        }
    }
}

/// A part of a text without `\n` holds no `\n`.
pub proof fn lemma_no_newline_subrange(s: Seq<char>, a: int, b: int)
    requires
        no_newline(s),
        0 <= a <= b <= s.len(),
    ensures
        no_newline(s.subrange(a, b)),
{
    assert forall|j: int| 0 <= j < b - a implies s.subrange(a, b)[j] != '\n' by {
        assert(s.subrange(a, b)[j] == s[a + j]);
    }
}

/// The lines of `s` (see `text_lines`).
pub fn split_lines(s: &Vec<char>) -> (r: Vec<Vec<char>>)
    ensures
        views(r@) == text_lines(s@),
{
    let mut out: Vec<Vec<char>> = Vec::new();
    let mut cur: Vec<char> = Vec::new();
    let mut i: usize = 0;
    assert(s@.skip(0) =~= s@);
    while i < s.len()
        invariant
            i <= s.len(),
            views(out@) + lines_from(s@.skip(i as int), cur@) == text_lines(s@),
        decreases s.len() - i,
    {
        let ghost rest = s@.skip(i as int);
        assert(rest[0] == s@[i as int]);
        assert(rest.drop_first() =~= s@.skip(i + 1));
        let ghost old_out = views(out@);
        if s[i] == '\n' {
            let ghost before = cur@;
            if cur.len() > 0 && cur[cur.len() - 1] == '\r' {
                cur.pop();
            }
            assert(cur@ =~= strip_cr(before));
            out.push(cur);
            cur = Vec::new();
            assert(views(out@) =~= old_out.push(strip_cr(before)));
            assert(views(out@) + lines_from(s@.skip(i + 1), cur@) =~= old_out + (seq![
                strip_cr(before),
            ] + lines_from(s@.skip(i + 1), seq![])));
        } else {
            cur.push(s[i]);
        }
        i += 1;
    }
    assert(s@.skip(i as int).len() == 0);
    if cur.len() > 0 {
        let ghost old_out = views(out@);
        let ghost last = cur@;
        out.push(cur);
        assert(views(out@) =~= old_out + seq![last]);
    } else {
        assert(views(out@) =~= views(out@) + Seq::<Seq<char>>::empty());
    }
    out
}

// ---------------------------------------------------------------------------
// Substring search
// ---------------------------------------------------------------------------
/// `needle` occurs in `hay` starting at position `i`.
pub open spec fn occurs_at(hay: Seq<char>, needle: Seq<char>, i: int) -> bool {
    &&& 0 <= i
    &&& i + needle.len() <= hay.len()
    &&& hay.subrange(i, i + needle.len()) == needle
}

/// `needle` occurs somewhere in `hay`.
pub open spec fn contains(hay: Seq<char>, needle: Seq<char>) -> bool {
    exists|i: int| occurs_at(hay, needle, i)
}

/// `i` is the position of the first occurrence of `needle` in `hay`.
pub open spec fn is_first_occurrence(hay: Seq<char>, needle: Seq<char>, i: int) -> bool {
    &&& occurs_at(hay, needle, i)
    &&& forall|j: int| 0 <= j < i ==> !occurs_at(hay, needle, j)
}

/// The position of the first occurrence of `needle` in `hay`, if any.
pub open spec fn find(hay: Seq<char>, needle: Seq<char>) -> Option<int> {
    if contains(hay, needle) {
        Some(choose|i: int| is_first_occurrence(hay, needle, i))
    } else {
        None
    }
}

/// A first occurrence is unique.
pub proof fn lemma_first_occurrence_unique(hay: Seq<char>, needle: Seq<char>, i: int, j: int)
    requires
        is_first_occurrence(hay, needle, i),
        is_first_occurrence(hay, needle, j),
    ensures
        i == j,
{
}

/// `find` gives exactly the first occurrence.
pub proof fn lemma_find_first(hay: Seq<char>, needle: Seq<char>, i: int)
    requires
        is_first_occurrence(hay, needle, i),
    ensures
        find(hay, needle) == Some(i),
{
    assert(contains(hay, needle));
    let k = choose|k: int| is_first_occurrence(hay, needle, k);
    lemma_first_occurrence_unique(hay, needle, i, k);
}

/// Where `needle` occurs at all, it has a first occurrence.
pub proof fn lemma_first_occurrence_exists(hay: Seq<char>, needle: Seq<char>, i: int)
    requires
        occurs_at(hay, needle, i),
    ensures
        exists|k: int| is_first_occurrence(hay, needle, k),
    decreases i,
{
    if exists|j: int| 0 <= j < i && occurs_at(hay, needle, j) {
        let j = choose|j: int| 0 <= j < i && occurs_at(hay, needle, j);
        lemma_first_occurrence_exists(hay, needle, j);
    } else {
        assert(is_first_occurrence(hay, needle, i));
    }
}

/// `find` is `None` exactly when `needle` does not occur, and otherwise the
/// first occurrence.
pub proof fn lemma_find(hay: Seq<char>, needle: Seq<char>)
    ensures
        match find(hay, needle) {
            Some(i) => is_first_occurrence(hay, needle, i),
            None => !contains(hay, needle),
        },
{
    if contains(hay, needle) {
        let w = choose|w: int| occurs_at(hay, needle, w);
        lemma_first_occurrence_exists(hay, needle, w);
    }
}

/// Whether `needle` occurs in `hay` at position `i`.
pub fn matches_at(hay: &Vec<char>, needle: &Vec<char>, i: usize) -> (r: bool)
    requires
        i <= hay.len(),
    ensures
        r == occurs_at(hay@, needle@, i as int),
{
    if needle.len() > hay.len() - i {
        return false;
    }
    let mut k: usize = 0;
    while k < needle.len()
        invariant
            k <= needle.len(),
            i + needle.len() <= hay.len(),
            forall|j: int| 0 <= j < k ==> hay@[i + j] == needle@[j],
        decreases needle.len() - k,
    {
        if hay[i + k] != needle[k] {
            assert(hay@.subrange(i as int, i + needle.len())[k as int] == hay@[i + k]);
            return false;
        }
        k += 1;
    }
    assert(hay@.subrange(i as int, i + needle.len()) =~= needle@);
    true
}

/// The position of the first occurrence of `needle` in `hay`.
pub fn find_chars(hay: &Vec<char>, needle: &Vec<char>) -> (r: Option<usize>)
    ensures
        match r {
            Some(i) => find(hay@, needle@) == Some(i as int) && is_first_occurrence(
                hay@,
                needle@,
                i as int,
            ),
            None => find(hay@, needle@) is None,
        },
{
    if needle.len() > hay.len() {
        assert(!contains(hay@, needle@));
        return None;
    }
    let last = hay.len() - needle.len();
    let mut i: usize = 0;
    loop
        invariant
            i <= last,
            last == hay.len() - needle.len(),
            forall|j: int| 0 <= j < i ==> !occurs_at(hay@, needle@, j),
        decreases last - i,
    {
        if matches_at(hay, needle, i) {
            proof {
                lemma_find_first(hay@, needle@, i as int);
            }
            return Some(i);
        }
        if i == last {
            assert(!contains(hay@, needle@));
            return None;
        }
        i += 1;
    }
}

/// Appends `s[from..to]` to `out`.
pub fn extend_range(out: &mut Vec<char>, s: &Vec<char>, from: usize, to: usize)
    requires
        from <= to <= s.len(),
    ensures
        final(out)@ == old(out)@ + s@.subrange(from as int, to as int),
{
    let ghost start = out@;
    let mut k: usize = from;
    while k < to
        invariant
            from <= k <= to,
            to <= s.len(),
            out@ == start + s@.subrange(from as int, k as int),
        decreases to - k,
    {
        out.push(s[k]);
        assert(s@.subrange(from as int, k + 1) =~= s@.subrange(from as int, k as int).push(
            s@[k as int],
        ));
        k += 1;
    }
}

/// Appends the characters of `s` to `out`.
pub fn extend_str(out: &mut Vec<char>, s: &str)
    ensures
        final(out)@ == old(out)@ + s@,
{
    let mut tail = str_chars(s);
    out.append(&mut tail);
}

/// Whether `a` and `b` hold the same characters.
pub fn chars_eq(a: &Vec<char>, b: &Vec<char>) -> (r: bool)
    ensures
        r == (a@ == b@),
{
    if a.len() != b.len() {
        return false;
    }
    let mut i: usize = 0;
    while i < a.len()
        invariant
            i <= a.len(),
            a.len() == b.len(),
            forall|j: int| 0 <= j < i ==> a@[j] == b@[j],
        decreases a.len() - i,
    {
        if a[i] != b[i] {
            return false;
        }
        i += 1;
    }
    assert(a@ =~= b@);
    true
}

/// `s` starts with `p`.
pub open spec fn has_prefix(s: Seq<char>, p: Seq<char>) -> bool {
    p.len() <= s.len() && s.take(p.len() as int) == p
}

/// Whether `s` starts with `p`.
pub fn starts_with_chars(s: &Vec<char>, p: &Vec<char>) -> (r: bool)
    ensures
        r == has_prefix(s@, p@),
{
    if p.len() > s.len() {
        return false;
    }
    let mut k: usize = 0;
    while k < p.len()
        invariant
            k <= p.len() <= s.len(),
            forall|j: int| 0 <= j < k ==> s@[j] == p@[j],
        decreases p.len() - k,
    {
        if s[k] != p[k] {
            assert(s@.take(p.len() as int)[k as int] == s@[k as int]);
            return false;
        }
        k += 1;
    }
    assert(s@.take(p.len() as int) =~= p@);
    true
}

/// Whether `needle` occurs in `hay`.
pub fn contains_chars(hay: &Vec<char>, needle: &Vec<char>) -> (r: bool)
    ensures
        r == contains(hay@, needle@),
{
    match find_chars(hay, needle) {
        Some(_) => true,
        None => false,
    }
}

/// Some keyword of `kws` occurs in `line`.
pub open spec fn has_any(line: Seq<char>, kws: Seq<Seq<char>>) -> bool {
    exists|k: int| 0 <= k < kws.len() && contains(line, #[trigger] kws[k])
}

/// Whether some keyword of `kws` occurs in `line`.
pub fn contains_any(line: &Vec<char>, kws: &Vec<Vec<char>>) -> (r: bool)
    ensures
        r == has_any(line@, views(kws@)),
{
    let mut k: usize = 0;
    while k < kws.len()
        invariant
            k <= kws.len(),
            forall|j: int| 0 <= j < k ==> !contains(line@, #[trigger] views(kws@)[j]),
        decreases kws.len() - k,
    {
        if contains_chars(line, &kws[k]) {
            assert(views(kws@)[k as int] == kws@[k as int]@);
            return true;
        }
        assert(views(kws@)[k as int] == kws@[k as int]@);
        k += 1;
    }
    false
}

// ---------------------------------------------------------------------------
// First line satisfying a predicate
// ---------------------------------------------------------------------------
/// The index of the first item that satisfies `p`, if any.
pub open spec fn first_index<A>(lines: Seq<A>, p: spec_fn(A) -> bool) -> Option<int>
    decreases lines.len(),
{
    if lines.len() == 0 {
        None
    } else if p(lines[0]) {
        Some(0)
    } else {
        match first_index(lines.drop_first(), p) {
            Some(i) => Some(i + 1),
            None => None,
        }
    }
}

/// `first_index` is the smallest index that satisfies the predicate, and is
/// `None` exactly when no line does.
pub proof fn lemma_first_index<A>(lines: Seq<A>, p: spec_fn(A) -> bool)
    ensures
        match first_index(lines, p) {
            Some(i) => 0 <= i < lines.len() && p(lines[i]) && forall|j: int|
                0 <= j < i ==> !p(#[trigger] lines[j]),
            None => forall|j: int| 0 <= j < lines.len() ==> !p(#[trigger] lines[j]),
        },
    decreases lines.len(),
{
    if lines.len() > 0 && !p(lines[0]) {
        lemma_first_index(lines.drop_first(), p);
        assert forall|j: int| 1 <= j < lines.len() implies lines[j] == lines.drop_first()[j - 1] by {}
    }
}

/// The characterisation of `first_index` by its index.
pub proof fn lemma_first_index_is<A>(lines: Seq<A>, p: spec_fn(A) -> bool, i: int)
    requires
        0 <= i < lines.len(),
        p(lines[i]),
        forall|j: int| 0 <= j < i ==> !p(#[trigger] lines[j]),
    ensures
        first_index(lines, p) == Some(i),
{
    lemma_first_index(lines, p);
    match first_index(lines, p) {
        Some(k) => {
            if k < i {
                assert(!p(lines[k]));
            }
            if k > i {
                assert(!p(lines[i]));
            }
        },
        None => {
            assert(!p(lines[i]));
        },
    }
}

/// The predicate "some keyword of `kws` occurs in the line".
pub open spec fn mentions_any(kws: Seq<Seq<char>>) -> spec_fn(Seq<char>) -> bool {
    |line: Seq<char>| has_any(line, kws)
}

/// The index of the first line in which some keyword of `kws` occurs.
pub fn first_line_mentioning(lines: &Vec<Vec<char>>, kws: &Vec<Vec<char>>) -> (r: Option<usize>)
    ensures
        match r {
            Some(i) => i < lines.len() && first_index(views(lines@), mentions_any(views(kws@)))
                == Some(i as int),
            None => first_index(views(lines@), mentions_any(views(kws@))) is None,
        },
{
    let ghost p = mentions_any(views(kws@));
    let ghost ls = views(lines@);
    let mut i: usize = 0;
    while i < lines.len()
        invariant
            i <= lines.len(),
            ls == views(lines@),
            p == mentions_any(views(kws@)),
            forall|j: int| 0 <= j < i ==> !p(#[trigger] ls[j]),
        decreases lines.len() - i,
    {
        assert(ls[i as int] == lines@[i as int]@);
        if contains_any(&lines[i], kws) {
            proof {
                lemma_first_index_is(ls, p, i as int);
            }
            return Some(i);
        }
        i += 1;
    }
    proof {
        lemma_first_index(ls, p);
    }
    None
}

// ---------------------------------------------------------------------------
// ASCII lower case
// ---------------------------------------------------------------------------
/// A character with ASCII `A`..`Z` mapped to `a`..`z`.
pub open spec fn lower_char(c: char) -> char {
    if 'A' <= c && c <= 'Z' {
        ((c as u32) + 32) as char
    } else {
        c
    }
}

/// A text with its ASCII letters lower-cased, as `str::to_ascii_lowercase`.
pub open spec fn ascii_lower(s: Seq<char>) -> Seq<char> {
    s.map_values(|c: char| lower_char(c))
}

/// Lower-casing twice is lower-casing once.
pub proof fn lemma_ascii_lower_idempotent(s: Seq<char>)
    ensures
        ascii_lower(ascii_lower(s)) == ascii_lower(s),
{
    assert forall|i: int| 0 <= i < s.len() implies lower_char(lower_char(s[i])) == lower_char(
        s[i],
    ) by {
        let c = s[i];
        if 'A' <= c && c <= 'Z' {
            let l = ((c as u32) + 32) as char;
            assert('a' <= l && l <= 'z');
        }
    }
    assert(ascii_lower(ascii_lower(s)) =~= ascii_lower(s));
}

/// `c` with ASCII upper case mapped to lower case.
pub fn lower_ascii_char(c: char) -> (r: char)
    ensures
        r == lower_char(c),
{
    if 'A' <= c && c <= 'Z' {
        let b: u8 = c as u8;
        (b + 32) as char
    } else {
        c
    }
}

/// `s` with its ASCII letters lower-cased.
pub fn lower_ascii(s: &Vec<char>) -> (r: Vec<char>)
    ensures
        r@ == ascii_lower(s@),
{
    let mut r: Vec<char> = Vec::new();
    let mut i: usize = 0;
    while i < s.len()
        invariant
            i <= s.len(),
            r@ == ascii_lower(s@.take(i as int)),
        decreases s.len() - i,
    {
        r.push(lower_ascii_char(s[i]));
        assert(ascii_lower(s@.take(i + 1)) =~= ascii_lower(s@.take(i as int)).push(
            lower_char(s@[i as int]),
        ));
        i += 1;
    }
    assert(s@.take(s.len() as int) =~= s@);
    r
}

// ---------------------------------------------------------------------------
// Whitespace
// ---------------------------------------------------------------------------
/// The characters with the Unicode `White_Space` property, which is what
/// `char::is_whitespace` tests.
pub open spec fn is_ws(c: char) -> bool {
    ||| ('\u{9}' <= c && c <= '\u{d}')
    ||| c == ' '
    ||| c == '\u{85}'
    ||| c == '\u{a0}'
    ||| c == '\u{1680}'
    ||| ('\u{2000}' <= c && c <= '\u{200a}')
    ||| c == '\u{2028}'
    ||| c == '\u{2029}'
    ||| c == '\u{202f}'
    ||| c == '\u{205f}'
    ||| c == '\u{3000}'
}

/// Whether `c` is Unicode whitespace.
pub fn is_whitespace(c: char) -> (r: bool)
    ensures
        r == is_ws(c),
{
    ('\u{9}' <= c && c <= '\u{d}') || c == ' ' || c == '\u{85}' || c == '\u{a0}' || c
        == '\u{1680}' || ('\u{2000}' <= c && c <= '\u{200a}') || c == '\u{2028}' || c
        == '\u{2029}' || c == '\u{202f}' || c == '\u{205f}' || c == '\u{3000}'
}

/// `s` without its leading whitespace.
pub open spec fn trim_start(s: Seq<char>) -> Seq<char>
    decreases s.len(),
{
    if s.len() > 0 && is_ws(s[0]) {
        trim_start(s.drop_first())
    } else {
        s
    }
}

/// `s` without its trailing whitespace.
pub open spec fn trim_end(s: Seq<char>) -> Seq<char>
    decreases s.len(),
{
    if s.len() > 0 && is_ws(s.last()) {
        trim_end(s.drop_last())
    } else {
        s
    }
}

/// `s` without leading and trailing whitespace, as `str::trim`.
pub open spec fn trim(s: Seq<char>) -> Seq<char> {
    trim_end(trim_start(s))
}

/// `trim_start` drops a prefix.
pub proof fn lemma_trim_start_skips(s: Seq<char>)
    ensures
        exists|k: int| 0 <= k <= s.len() && trim_start(s) == s.skip(k),
    decreases s.len(),
{
    if s.len() > 0 && is_ws(s[0]) {
        lemma_trim_start_skips(s.drop_first());
        let k = choose|k: int|
            0 <= k <= s.drop_first().len() && trim_start(s.drop_first()) == s.drop_first().skip(k);
        assert(s.drop_first().skip(k) =~= s.skip(k + 1));
    } else {
        assert(s.skip(0) =~= s);
    }
}

/// `trim_end` keeps a prefix.
pub proof fn lemma_trim_end_takes(s: Seq<char>)
    ensures
        exists|k: int| 0 <= k <= s.len() && trim_end(s) == s.take(k),
    decreases s.len(),
{
    if s.len() > 0 && is_ws(s.last()) {
        lemma_trim_end_takes(s.drop_last());
        let k = choose|k: int|
            0 <= k <= s.drop_last().len() && trim_end(s.drop_last()) == s.drop_last().take(k);
        assert(s.drop_last().take(k) =~= s.take(k));
    } else {
        assert(s.take(s.len() as int) =~= s);
    }
}

/// `trim` keeps a contiguous part of the text.
pub proof fn lemma_trim_is_subrange(s: Seq<char>)
    ensures
        exists|a: int, b: int| 0 <= a <= b <= s.len() && trim(s) == s.subrange(a, b),
{
    lemma_trim_start_skips(s);
    let a = choose|k: int| 0 <= k <= s.len() && trim_start(s) == s.skip(k);
    lemma_trim_end_takes(s.skip(a));
    let m = choose|k: int| 0 <= k <= s.skip(a).len() && trim_end(s.skip(a)) == s.skip(a).take(k);
    assert(s.skip(a).take(m) =~= s.subrange(a, a + m));
}

/// `s` neither starts nor ends with whitespace.
pub open spec fn is_trimmed(s: Seq<char>) -> bool {
    s.len() == 0 || (!is_ws(s[0]) && !is_ws(s.last()))
}

/// `s` holds no `c`.
pub open spec fn lacks(s: Seq<char>, c: char) -> bool {
    forall|i: int| 0 <= i < s.len() ==> s[i] != c
}

proof fn lemma_trim_start_front(s: Seq<char>)
    ensures
        trim_start(s).len() == 0 || !is_ws(trim_start(s)[0]),
    decreases s.len(),
{
    if s.len() > 0 && is_ws(s[0]) {
        lemma_trim_start_front(s.drop_first());
    }
}

proof fn lemma_trim_end_back(s: Seq<char>)
    ensures
        trim_end(s).len() == 0 || !is_ws(trim_end(s).last()),
    decreases s.len(),
{
    if s.len() > 0 && is_ws(s.last()) {
        lemma_trim_end_back(s.drop_last());
    }
}

/// A trimmed text neither starts nor ends with whitespace.
pub proof fn lemma_trim_is_trimmed(s: Seq<char>)
    ensures
        is_trimmed(trim(s)),
{
    let t = trim_start(s);
    lemma_trim_start_front(s);
    lemma_trim_end_back(t);
    lemma_trim_end_takes(t);
    if trim(s).len() > 0 {
        let k = choose|k: int| 0 <= k <= t.len() && trim_end(t) == t.take(k);
        assert(trim(s)[0] == t[0]);
    }
}

/// Trimming leaves a trimmed text as it is.
pub proof fn lemma_trim_of_trimmed(s: Seq<char>)
    requires
        is_trimmed(s),
    ensures
        trim(s) == s,
{
}

/// Lower-casing keeps a text trimmed, and brings in no `#`.
pub proof fn lemma_ascii_lower_keeps(s: Seq<char>)
    ensures
        is_trimmed(s) ==> is_trimmed(ascii_lower(s)),
        lacks(s, '#') ==> lacks(ascii_lower(s), '#'),
{
    assert forall|i: int| 0 <= i < s.len() implies (is_ws(#[trigger] ascii_lower(s)[i]) == is_ws(
        s[i],
    )) && (ascii_lower(s)[i] == '#' ==> s[i] == '#') by {
        let c = s[i];
        if 'A' <= c && c <= 'Z' {
            let l = ((c as u32) + 32) as char;
            assert('a' <= l && l <= 'z');
        }
    }
    if s.len() > 0 {
        assert(ascii_lower(s).last() == ascii_lower(s)[s.len() - 1]);
    }
}

/// A part of a text without `c` holds no `c`.
pub proof fn lemma_lacks_subrange(s: Seq<char>, c: char, a: int, b: int)
    requires
        lacks(s, c),
        0 <= a <= b <= s.len(),
    ensures
        lacks(s.subrange(a, b), c),
{
    assert forall|j: int| 0 <= j < b - a implies s.subrange(a, b)[j] != c by {
        assert(s.subrange(a, b)[j] == s[a + j]);
    }
}

/// The whitespace that `s` starts with.
pub open spec fn leading_ws(s: Seq<char>) -> Seq<char>
    decreases s.len(),
{
    if s.len() > 0 && is_ws(s[0]) {
        seq![s[0]] + leading_ws(s.drop_first())
    } else {
        seq![]
    }
}

/// The leading whitespace of a text is a prefix of it.
pub proof fn lemma_leading_ws_is_prefix(s: Seq<char>)
    ensures
        exists|k: int| 0 <= k <= s.len() && leading_ws(s) == s.take(k),
    decreases s.len(),
{
    if s.len() > 0 && is_ws(s[0]) {
        lemma_leading_ws_is_prefix(s.drop_first());
        let k = choose|k: int|
            0 <= k <= s.drop_first().len() && leading_ws(s.drop_first()) == s.drop_first().take(k);
        assert(seq![s[0]] + s.drop_first().take(k) =~= s.take(k + 1));
    } else {
        assert(s.take(0) =~= Seq::<char>::empty());
    }
}

/// The characters of `s` from `from` to `to`, without leading and trailing
/// whitespace.
pub fn trimmed_range(s: &Vec<char>, from: usize, to: usize) -> (r: Vec<char>)
    requires
        from <= to <= s.len(),
    ensures
        r@ == trim(s@.subrange(from as int, to as int)),
{
    let ghost whole = s@.subrange(from as int, to as int);
    let mut a: usize = from;
    assert(whole.skip(0) =~= whole);
    while a < to && is_whitespace(s[a])
        invariant
            from <= a <= to <= s.len(),
            whole == s@.subrange(from as int, to as int),
            trim_start(whole) == trim_start(s@.subrange(a as int, to as int)),
        decreases to - a,
    {
        assert(s@.subrange(a as int, to as int).drop_first() =~= s@.subrange(a + 1, to as int));
        a += 1;
    }
    let ghost started = s@.subrange(a as int, to as int);
    assert(trim_start(whole) == started);
    let mut b: usize = to;
    while b > a && is_whitespace(s[b - 1])
        invariant
            a <= b <= to,
            to <= s.len(),
            trim_end(started) == trim_end(s@.subrange(a as int, b as int)),
            started == s@.subrange(a as int, to as int),
        decreases b - a,
    {
        assert(s@.subrange(a as int, b as int).drop_last() =~= s@.subrange(a as int, b - 1));
        b -= 1;
    }
    let mut r: Vec<char> = Vec::new();
    let mut k: usize = a;
    while k < b
        invariant
            a <= k <= b,
            b <= s.len(),
            r@ == s@.subrange(a as int, k as int),
        decreases b - k,
    {
        r.push(s[k]);
        assert(s@.subrange(a as int, k + 1) =~= s@.subrange(a as int, k as int).push(s@[k as int]));
        k += 1;
    }
    r
}

/// `s` without leading and trailing whitespace.
pub fn trim_chars(s: &Vec<char>) -> (r: Vec<char>)
    ensures
        r@ == trim(s@),
{
    assert(s@.subrange(0, s.len() as int) =~= s@);
    trimmed_range(s, 0, s.len())
}

/// The leading whitespace of `s`.
pub fn leading_whitespace_chars(s: &Vec<char>) -> (r: Vec<char>)
    ensures
        r@ == leading_ws(s@),
{
    let mut r: Vec<char> = Vec::new();
    let mut i: usize = 0;
    assert(s@.skip(0) =~= s@);
    while i < s.len() && is_whitespace(s[i])
        invariant
            i <= s.len(),
            leading_ws(s@) == r@ + leading_ws(s@.skip(i as int)),
        decreases s.len() - i,
    {
        let ghost rest = s@.skip(i as int);
        assert(rest[0] == s@[i as int]);
        assert(rest.drop_first() =~= s@.skip(i + 1));
        let ghost before = r@;
        r.push(s[i]);
        assert(leading_ws(rest) == seq![s@[i as int]] + leading_ws(s@.skip(i + 1)));
        assert(r@ + leading_ws(s@.skip(i + 1)) =~= before + leading_ws(rest));
        i += 1;
    }
    proof {
        let rest = s@.skip(i as int);
        if i < s.len() {
            assert(rest[0] == s@[i as int]);
        }
        assert(leading_ws(rest) =~= seq![]);
        assert(r@ + leading_ws(rest) =~= r@);
    }
    r
}

// ---------------------------------------------------------------------------
// Decimal rendering
// ---------------------------------------------------------------------------
/// The character of a decimal digit.
pub open spec fn digit_char(d: nat) -> char {
    (('0' as u32) + d) as char
}

/// The decimal rendering of `n`, without leading zeros.
pub open spec fn decimal(n: nat) -> Seq<char>
    decreases n,
{
    if n < 10 {
        seq![digit_char(n)]
    } else {
        decimal(n / 10).push(digit_char(n % 10))
    }
}

/// A decimal rendering is made of the digits `0`..`9`.
pub proof fn lemma_decimal_digits(n: nat)
    ensures
        forall|i: int|
            0 <= i < decimal(n).len() ==> '0' <= #[trigger] decimal(n)[i] && decimal(n)[i] <= '9',
    decreases n,
{
    if n >= 10 {
        lemma_decimal_digits(n / 10);
        let d = decimal(n / 10);
        assert forall|i: int| 0 <= i < decimal(n).len() implies '0' <= #[trigger] decimal(n)[i]
            && decimal(n)[i] <= '9' by {
            if i < d.len() {
                assert(decimal(n)[i] == d[i]);
            }
        }
    }
}

/// Appends the decimal rendering of `n` to `out`.
pub fn push_decimal(out: &mut String, n: u128)
    ensures
        final(out)@ == old(out)@ + decimal(n as nat),
    decreases n,
{
    if n >= 10 {
        push_decimal(out, n / 10);
    }
    let d: u8 = (n % 10) as u8;
    out.push((48u8 + d) as char);
    assert(old(out)@ + decimal(n as nat) =~= out@);
}

} // verus!
