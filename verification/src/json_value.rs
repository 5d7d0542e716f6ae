//! JSON texts as RFC 8259 reads them: a model of JSON values, a reader for
//! JSON texts, and the compact writing that the reports use, with the law that
//! the reader gives back every value so written.

use vstd::prelude::*;
use crate::json::{lemma_encoded_string_reads_back, read_string, spec_encode};

verus! {

/// A JSON value. A number keeps its text.
pub enum JsonValue {
    Null,
    Bool(bool),
    Number(Seq<char>),
    Str(Seq<char>),
    Array(Seq<JsonValue>),
    Object(Seq<(Seq<char>, JsonValue)>),
}

/// JSON whitespace.
pub open spec fn is_json_ws(c: char) -> bool {
    c == ' ' || c == '\t' || c == '\n' || c == '\r'
}

/// An ASCII decimal digit.
pub open spec fn is_json_digit(c: char) -> bool {
    '0' <= c && c <= '9'
}

/// The number of whitespace characters that `t` starts with.
pub open spec fn ws_len(t: Seq<char>) -> int
    decreases t.len(),
{
    if t.len() > 0 && is_json_ws(t[0]) {
        1 + ws_len(t.drop_first())
    } else {
        0
    }
}

/// The number of digits that `t` starts with.
pub open spec fn digits_len(t: Seq<char>) -> int
    decreases t.len(),
{
    if t.len() > 0 && is_json_digit(t[0]) {
        1 + digits_len(t.drop_first())
    } else {
        0
    }
}

/// The length of the number token that `t` starts with, per RFC 8259:
/// `-? (0 | [1-9][0-9]*) (. [0-9]+)? ([eE] [+-]? [0-9]+)?`.
pub open spec fn number_len(t: Seq<char>) -> Option<int> {
    let s: int = if t.len() > 0 && t[0] == '-' {
        1
    } else {
        0
    };
    let d = digits_len(t.skip(s));
    if d == 0 || (d > 1 && t[s] == '0') {
        None
    } else {
        let i = s + d;
        let f: int = if i < t.len() && t[i] == '.' {
            let fd = digits_len(t.skip(i + 1));
            if fd == 0 {
                -1
            } else {
                fd + 1
            }
        } else {
            0
        };
        if f < 0 {
            None
        } else {
            let j = i + f;
            let e: int = if j < t.len() && (t[j] == 'e' || t[j] == 'E') {
                let k: int = j + 1 + if j + 1 < t.len() && (t[j + 1] == '+' || t[j + 1] == '-') {
                    1int
                } else {
                    0int
                };
                let ed = digits_len(t.skip(k));
                if ed == 0 {
                    -1
                } else {
                    k - j + ed
                }
            } else {
                0
            };
            if e < 0 {
                None
            } else {
                Some(j + e)
            }
        }
    }
}

/// `t` starts with `p`.
pub open spec fn starts(t: Seq<char>, p: Seq<char>) -> bool {
    p.len() <= t.len() && t.take(p.len() as int) == p
}

/// Reads the JSON value at the start of `t`, after any whitespace: the value
/// and how many characters it spans, whitespace included.
#[verifier::opaque]
pub open spec fn parse_value(t: Seq<char>) -> Option<(JsonValue, int)>
    decreases t.len(), 0int,
{
    let w = ws_len(t);
    if w < 0 || w >= t.len() {
        None
    } else {
        let u = t.skip(w);
        let c = u[0];
        if c == '"' {
            match read_string(u.drop_first()) {
                Some((s, m)) => Some((JsonValue::Str(s), w + 1 + m)),
                None => None,
            }
        } else if c == '[' {
            match parse_array(u.drop_first()) {
                Some((items, m)) => Some((JsonValue::Array(items), w + 1 + m)),
                None => None,
            }
        } else if c == '{' {
            match parse_object(u.drop_first()) {
                Some((ms, m)) => Some((JsonValue::Object(ms), w + 1 + m)),
                None => None,
            }
        } else if starts(u, seq!['t', 'r', 'u', 'e']) {
            Some((JsonValue::Bool(true), w + 4))
        } else if starts(u, seq!['f', 'a', 'l', 's', 'e']) {
            Some((JsonValue::Bool(false), w + 5))
        } else if starts(u, seq!['n', 'u', 'l', 'l']) {
            Some((JsonValue::Null, w + 4))
        } else {
            match number_len(u) {
                Some(n) => Some((JsonValue::Number(u.take(n)), w + n)),
                None => None,
            }
        }
    }
}

/// Reads the rest of an array after its `[`.
#[verifier::opaque]
pub open spec fn parse_array(t: Seq<char>) -> Option<(Seq<JsonValue>, int)>
    decreases t.len(), 2int,
{
    let w = ws_len(t);
    if 0 <= w < t.len() && t[w] == ']' {
        Some((seq![], w + 1))
    } else {
        parse_elements(t)
    }
}

/// Reads array elements and the closing `]`.
#[verifier::opaque]
pub open spec fn parse_elements(t: Seq<char>) -> Option<(Seq<JsonValue>, int)>
    decreases t.len(), 1int,
{
    match parse_value(t) {
        Some((v, n)) => if 0 < n <= t.len() {
            let r = t.skip(n);
            let w = ws_len(r);
            if 0 <= w < r.len() && r[w] == ']' {
                Some((seq![v], n + w + 1))
            } else if 0 <= w < r.len() && r[w] == ',' {
                match parse_elements(r.skip(w + 1)) {
                    Some((vs, m)) => Some((seq![v] + vs, n + w + 1 + m)),
                    None => None,
                }
            } else {
                None
            }
        } else {
            None
        },
        None => None,
    }
}

/// Reads the rest of an object after its `{`.
#[verifier::opaque]
pub open spec fn parse_object(t: Seq<char>) -> Option<(Seq<(Seq<char>, JsonValue)>, int)>
    decreases t.len(), 2int,
{
    let w = ws_len(t);
    if 0 <= w < t.len() && t[w] == '}' {
        Some((seq![], w + 1))
    } else {
        parse_members(t)
    }
}

/// Reads object members and the closing `}`.
#[verifier::opaque]
pub open spec fn parse_members(t: Seq<char>) -> Option<(Seq<(Seq<char>, JsonValue)>, int)>
    decreases t.len(), 1int,
{
    let w = ws_len(t);
    if 0 <= w < t.len() && t[w] == '"' {
        match read_string(t.skip(w + 1)) {
            Some((key, m)) => {
                let a = w + 1 + m;
                if 0 < a <= t.len() {
                    let r = t.skip(a);
                    let w2 = ws_len(r);
                    if 0 <= w2 < r.len() && r[w2] == ':' {
                        let b = a + w2 + 1;
                        let r2 = t.skip(b);
                        match parse_value(r2) {
                            Some((v, n)) => if 0 < n <= r2.len() {
                                let r3 = r2.skip(n);
                                let w3 = ws_len(r3);
                                if 0 <= w3 < r3.len() && r3[w3] == '}' {
                                    Some((seq![(key, v)], b + n + w3 + 1))
                                } else if 0 <= w3 < r3.len() && r3[w3] == ',' {
                                    match parse_members(r3.skip(w3 + 1)) {
                                        Some((ms, k)) => Some(
                                            (seq![(key, v)] + ms, b + n + w3 + 1 + k),
                                        ),
                                        None => None,
                                    }
                                } else {
                                    None
                                }
                            } else {
                                None
                            },
                            None => None,
                        }
                    } else {
                        None
                    }
                } else {
                    None
                }
            },
            None => None,
        }
    } else {
        None
    }
}

/// The value of a complete JSON text: one value, with only whitespace
/// around it.
pub open spec fn parse_json(t: Seq<char>) -> Option<JsonValue> {
    match parse_value(t) {
        Some((v, n)) => if 0 <= n <= t.len() && ws_len(t.skip(n)) == t.len() - n {
            Some(v)
        } else {
            None
        },
        None => None,
    }
}

// ---------------------------------------------------------------------------
// Writing values, and reading them back
// ---------------------------------------------------------------------------
/// The compact JSON text of a value: no whitespace, strings written by
/// `spec_encode`, numbers by their text.
pub open spec fn to_text(v: JsonValue) -> Seq<char>
    decreases v,
{
    match v {
        JsonValue::Null => seq!['n', 'u', 'l', 'l'],
        JsonValue::Bool(b) => if b {
            seq!['t', 'r', 'u', 'e']
        } else {
            seq!['f', 'a', 'l', 's', 'e']
        },
        JsonValue::Number(t) => t,
        JsonValue::Str(s) => spec_encode(s),
        JsonValue::Array(items) => seq!['['] + items_text(items) + seq![']'],
        JsonValue::Object(ms) => seq!['{'] + members_text(ms) + seq!['}'],
    }
}

/// Array elements, separated by commas.
pub open spec fn items_text(items: Seq<JsonValue>) -> Seq<char>
    decreases items,
{
    if items.len() == 0 {
        seq![]
    } else if items.len() == 1 {
        to_text(items[0])
    } else {
        to_text(items[0]) + seq![','] + items_text(items.drop_first())
    }
}

/// Object members, `"key":value`, separated by commas.
pub open spec fn members_text(ms: Seq<(Seq<char>, JsonValue)>) -> Seq<char>
    decreases ms,
{
    if ms.len() == 0 {
        seq![]
    } else if ms.len() == 1 {
        spec_encode(ms[0].0) + seq![':'] + to_text(ms[0].1)
    } else {
        spec_encode(ms[0].0) + seq![':'] + to_text(ms[0].1) + seq![','] + members_text(
            ms.drop_first(),
        )
    }
}

/// A number text as the reports write one: digits, without a leading zero.
pub open spec fn number_wf(t: Seq<char>) -> bool {
    &&& t.len() > 0
    &&& forall|i: int| 0 <= i < t.len() ==> is_json_digit(#[trigger] t[i])
    &&& (t[0] != '0' || t.len() == 1)
}

/// Every number inside the value is written as the reports write numbers.
pub open spec fn value_wf(v: JsonValue) -> bool
    decreases v,
{
    match v {
        JsonValue::Number(t) => number_wf(t),
        JsonValue::Array(items) => items_wf(items),
        JsonValue::Object(ms) => members_wf(ms),
        _ => true,
    }
}

/// Every element is well formed.
pub open spec fn items_wf(items: Seq<JsonValue>) -> bool
    decreases items,
{
    items.len() == 0 || (value_wf(items[0]) && items_wf(items.drop_first()))
}

/// Every member's value is well formed.
pub open spec fn members_wf(ms: Seq<(Seq<char>, JsonValue)>) -> bool
    decreases ms,
{
    ms.len() == 0 || (value_wf(ms[0].1) && members_wf(ms.drop_first()))
}

/// What may follow a value inside a JSON text written by `to_text`.
pub open spec fn ends_value(rest: Seq<char>) -> bool {
    rest.len() == 0 || rest[0] == ',' || rest[0] == ']' || rest[0] == '}'
}

proof fn lemma_ws_len_zero(t: Seq<char>)
    requires
        t.len() > 0,
        !is_json_ws(t[0]),
    ensures
        ws_len(t) == 0,
{
}

proof fn lemma_digits_len(t: Seq<char>, rest: Seq<char>)
    requires
        forall|i: int| 0 <= i < t.len() ==> is_json_digit(#[trigger] t[i]),
        rest.len() == 0 || !is_json_digit(rest[0]),
    ensures
        digits_len(t + rest) == t.len(),
    decreases t.len(),
{
    if t.len() == 0 {
        assert(t + rest =~= rest);
    } else {
        assert((t + rest)[0] == t[0]);
        assert((t + rest).drop_first() =~= t.drop_first() + rest);
        assert forall|i: int| 0 <= i < t.drop_first().len() implies is_json_digit(
            #[trigger] t.drop_first()[i],
        ) by {
            assert(t.drop_first()[i] == t[i + 1]);
        }
        lemma_digits_len(t.drop_first(), rest);
    }
}

proof fn lemma_number_len(t: Seq<char>, rest: Seq<char>)
    requires
        number_wf(t),
        ends_value(rest),
    ensures
        number_len(t + rest) == Some(t.len() as int),
{
    let u = t + rest;
    assert(u[0] == t[0]);
    assert(is_json_digit(t[0]));
    assert(u.skip(0) =~= u);
    lemma_digits_len(t, rest);
    if t.len() > 1 {
        assert(u[0] == t[0]);
    }
    if rest.len() > 0 {
        assert(u[t.len() as int] == rest[0]);
    }
}

/// The text of a value is not empty and starts with a character that tells
/// what kind of value it is.
proof fn lemma_text_start(v: JsonValue)
    requires
        value_wf(v),
    ensures
        to_text(v).len() > 0,
        !is_json_ws(to_text(v)[0]),
        to_text(v)[0] != ']',
        to_text(v)[0] != '}',
        to_text(v)[0] != ',',
        to_text(v)[0] == '"' <==> v is Str,
        to_text(v)[0] == '[' <==> v is Array,
        to_text(v)[0] == '{' <==> v is Object,
        to_text(v)[0] == 't' <==> (v is Bool && v->Bool_0),
        to_text(v)[0] == 'f' <==> (v is Bool && !v->Bool_0),
        to_text(v)[0] == 'n' <==> v is Null,
        v is Number ==> is_json_digit(to_text(v)[0]),
{
    match v {
        JsonValue::Number(t) => {
            assert(is_json_digit(t[0]));
        },
        JsonValue::Str(s) => {},
        _ => {},
    }
}

/// A text that starts otherwise than `p` does not start with `p`.
proof fn lemma_not_starts(t: Seq<char>, p: Seq<char>)
    requires
        t.len() > 0,
        p.len() > 0,
        t[0] != p[0],
    ensures
        !starts(t, p),
{
    if p.len() <= t.len() {
        assert(t.take(p.len() as int)[0] == t[0]);
    }
}

// One reading step each.
proof fn step_value_string(t: Seq<char>, x: Seq<char>, m: int)
    requires
        t.len() > 0,
        ws_len(t) == 0,
        t[0] == '"',
        read_string(t.drop_first()) == Some((x, m)),
    ensures
        parse_value(t) == Some((JsonValue::Str(x), 1 + m)),
{
    reveal_with_fuel(parse_value, 1);
    reveal_with_fuel(parse_array, 1);
    reveal_with_fuel(parse_elements, 1);
    reveal_with_fuel(parse_object, 1);
    reveal_with_fuel(parse_members, 1);
    assert(t.skip(0) =~= t);
}

proof fn step_value_array(t: Seq<char>, x: Seq<JsonValue>, m: int)
    requires
        t.len() > 0,
        ws_len(t) == 0,
        t[0] == '[',
        parse_array(t.drop_first()) == Some((x, m)),
    ensures
        parse_value(t) == Some((JsonValue::Array(x), 1 + m)),
{
    reveal_with_fuel(parse_value, 1);
    reveal_with_fuel(parse_array, 1);
    reveal_with_fuel(parse_elements, 1);
    reveal_with_fuel(parse_object, 1);
    reveal_with_fuel(parse_members, 1);
    assert(t.skip(0) =~= t);
}

proof fn step_value_object(t: Seq<char>, x: Seq<(Seq<char>, JsonValue)>, m: int)
    requires
        t.len() > 0,
        ws_len(t) == 0,
        t[0] == '{',
        parse_object(t.drop_first()) == Some((x, m)),
    ensures
        parse_value(t) == Some((JsonValue::Object(x), 1 + m)),
{
    reveal_with_fuel(parse_value, 1);
    reveal_with_fuel(parse_array, 1);
    reveal_with_fuel(parse_elements, 1);
    reveal_with_fuel(parse_object, 1);
    reveal_with_fuel(parse_members, 1);
    assert(t.skip(0) =~= t);
}

proof fn step_value_other(t: Seq<char>)
    requires
        t.len() > 0,
        ws_len(t) == 0,
        t[0] != '"',
        t[0] != '[',
        t[0] != '{',
    ensures
        parse_value(t) == (if starts(t, seq!['t', 'r', 'u', 'e']) {
            Some((JsonValue::Bool(true), 4int))
        } else if starts(t, seq!['f', 'a', 'l', 's', 'e']) {
            Some((JsonValue::Bool(false), 5int))
        } else if starts(t, seq!['n', 'u', 'l', 'l']) {
            Some((JsonValue::Null, 4int))
        } else {
            match number_len(t) {
                Some(n) => Some((JsonValue::Number(t.take(n)), n)),
                None => None,
            }
        }),
{
    reveal_with_fuel(parse_value, 1);
    reveal_with_fuel(parse_array, 1);
    reveal_with_fuel(parse_elements, 1);
    reveal_with_fuel(parse_object, 1);
    reveal_with_fuel(parse_members, 1);
    assert(t.skip(0) =~= t);
}

proof fn step_array(t: Seq<char>)
    requires
        t.len() > 0,
        ws_len(t) == 0,
    ensures
        t[0] == ']' ==> parse_array(t) == Some((Seq::<JsonValue>::empty(), 1int)),
        t[0] != ']' ==> parse_array(t) == parse_elements(t),
{
    reveal_with_fuel(parse_value, 1);
    reveal_with_fuel(parse_array, 1);
    reveal_with_fuel(parse_elements, 1);
    reveal_with_fuel(parse_object, 1);
    reveal_with_fuel(parse_members, 1);
}

proof fn step_object(t: Seq<char>)
    requires
        t.len() > 0,
        ws_len(t) == 0,
    ensures
        parse_object(t) == (if t[0] == '}' {
            Some((seq![], 1int))
        } else {
            parse_members(t)
        }),
{
    reveal_with_fuel(parse_value, 1);
    reveal_with_fuel(parse_array, 1);
    reveal_with_fuel(parse_elements, 1);
    reveal_with_fuel(parse_object, 1);
    reveal_with_fuel(parse_members, 1);
}

proof fn step_elements(t: Seq<char>, v: JsonValue, n: int)
    requires
        parse_value(t) == Some((v, n)),
        0 < n < t.len(),
        ws_len(t.skip(n)) == 0,
    ensures
        t.skip(n)[0] == ']' ==> parse_elements(t) == Some((seq![v], n + 1)),
        t.skip(n)[0] == ',' ==> parse_elements(t) == match parse_elements(t.skip(n).skip(1)) {
            Some((vs, m)) => Some((seq![v] + vs, n + 1 + m)),
            None => None,
        },
{
    reveal_with_fuel(parse_value, 1);
    reveal_with_fuel(parse_array, 1);
    reveal_with_fuel(parse_elements, 1);
    reveal_with_fuel(parse_object, 1);
    reveal_with_fuel(parse_members, 1);
}

proof fn step_members(t: Seq<char>, key: Seq<char>, m: int, v: JsonValue, n: int)
    requires
        t.len() > 0,
        ws_len(t) == 0,
        t[0] == '"',
        read_string(t.skip(1)) == Some((key, m)),
        0 < 1 + m < t.len(),
        ws_len(t.skip(1 + m)) == 0,
        t.skip(1 + m)[0] == ':',
        parse_value(t.skip(2 + m)) == Some((v, n)),
        0 < n < t.skip(2 + m).len(),
        ws_len(t.skip(2 + m).skip(n)) == 0,
    ensures
        t.skip(2 + m).skip(n)[0] == '}' ==> parse_members(t) == Some(
            (seq![(key, v)], 2 + m + n + 1),
        ),
        t.skip(2 + m).skip(n)[0] == ',' ==> parse_members(t) == match parse_members(
            t.skip(2 + m).skip(n).skip(1),
        ) {
            Some((ms, k)) => Some((seq![(key, v)] + ms, 2 + m + n + 1 + k)),
            None => None,
        },
{
    reveal_with_fuel(parse_value, 1);
    reveal_with_fuel(parse_array, 1);
    reveal_with_fuel(parse_elements, 1);
    reveal_with_fuel(parse_object, 1);
    reveal_with_fuel(parse_members, 1);
}

/// A value written by `to_text` reads back as itself, spanning exactly its
/// text, whatever may follow it in a JSON text.
pub proof fn lemma_value_reads_back(v: JsonValue, rest: Seq<char>)
    requires
        value_wf(v),
        ends_value(rest),
    ensures
        parse_value(to_text(v) + rest) == Some((v, to_text(v).len() as int)),
    decreases v, 0int,
{
    let t = to_text(v) + rest;
    lemma_text_start(v);
    assert(t[0] == to_text(v)[0]);
    lemma_ws_len_zero(t);
    match v {
        JsonValue::Str(s) => {
            lemma_encoded_string_reads_back(s, rest);
            step_value_string(t, s, spec_encode(s).len() - 1);
        },
        JsonValue::Array(items) => {
            lemma_array_reads_back(items, rest);
            assert(t.drop_first() =~= items_text(items) + seq![']'] + rest);
            step_value_array(t, items, items_text(items).len() + 1int);
        },
        JsonValue::Object(ms) => {
            lemma_object_reads_back(ms, rest);
            assert(t.drop_first() =~= members_text(ms) + seq!['}'] + rest);
            step_value_object(t, ms, members_text(ms).len() + 1int);
        },
        JsonValue::Bool(b) => {
            step_value_other(t);
            if b {
                assert(t.take(4) =~= seq!['t', 'r', 'u', 'e']);
            } else {
                lemma_not_starts(t, seq!['t', 'r', 'u', 'e']);
                assert(t.take(5) =~= seq!['f', 'a', 'l', 's', 'e']);
            }
        },
        JsonValue::Null => {
            step_value_other(t);
            lemma_not_starts(t, seq!['t', 'r', 'u', 'e']);
            lemma_not_starts(t, seq!['f', 'a', 'l', 's', 'e']);
            assert(t.take(4) =~= seq!['n', 'u', 'l', 'l']);
        },
        JsonValue::Number(n) => {
            step_value_other(t);
            lemma_not_starts(t, seq!['t', 'r', 'u', 'e']);
            lemma_not_starts(t, seq!['f', 'a', 'l', 's', 'e']);
            lemma_not_starts(t, seq!['n', 'u', 'l', 'l']);
            lemma_number_len(n, rest);
            assert(t.take(n.len() as int) =~= n);
        },
    }
}

proof fn lemma_array_reads_back(items: Seq<JsonValue>, rest: Seq<char>)
    requires
        items_wf(items),
    ensures
        parse_array(items_text(items) + seq![']'] + rest) == Some(
            (items, items_text(items).len() + 1int),
        ),
    decreases items, 1int,
{
    let inner = items_text(items) + seq![']'] + rest;
    if items.len() == 0 {
        assert(inner[0] == ']');
        lemma_ws_len_zero(inner);
        step_array(inner);
        assert(items =~= Seq::<JsonValue>::empty());
    } else {
        lemma_items_start(items);
        assert(inner[0] == items_text(items)[0]);
        lemma_ws_len_zero(inner);
        step_array(inner);
        lemma_items_read_back(items, rest);
    }
}

proof fn lemma_object_reads_back(ms: Seq<(Seq<char>, JsonValue)>, rest: Seq<char>)
    requires
        members_wf(ms),
    ensures
        parse_object(members_text(ms) + seq!['}'] + rest) == Some(
            (ms, members_text(ms).len() + 1int),
        ),
    decreases ms, 1int,
{
    let inner = members_text(ms) + seq!['}'] + rest;
    if ms.len() == 0 {
        assert(inner[0] == '}');
        lemma_ws_len_zero(inner);
        step_object(inner);
        assert(ms =~= Seq::<(Seq<char>, JsonValue)>::empty());
    } else {
        lemma_members_start(ms);
        assert(inner[0] == '"');
        lemma_ws_len_zero(inner);
        step_object(inner);
        lemma_members_read_back(ms, rest);
    }
}

proof fn lemma_items_start(items: Seq<JsonValue>)
    requires
        items.len() > 0,
        items_wf(items),
    ensures
        items_text(items).len() > 0,
        items_text(items)[0] == to_text(items[0])[0],
        !is_json_ws(items_text(items)[0]),
        items_text(items)[0] != ']',
{
    lemma_text_start(items[0]);
    if items.len() > 1 {
        assert(items_text(items)[0] == to_text(items[0])[0]);
    }
}

proof fn lemma_members_start(ms: Seq<(Seq<char>, JsonValue)>)
    requires
        ms.len() > 0,
    ensures
        members_text(ms).len() > 0,
        members_text(ms)[0] == '"',
{
    assert(spec_encode(ms[0].0)[0] == '"');
    assert(members_text(ms)[0] == spec_encode(ms[0].0)[0]);
}

/// Array elements read back as themselves, up to and including the `]`.
proof fn lemma_items_read_back(items: Seq<JsonValue>, rest: Seq<char>)
    requires
        items.len() > 0,
        items_wf(items),
    ensures
        parse_elements(items_text(items) + seq![']'] + rest) == Some(
            (items, items_text(items).len() + 1int),
        ),
    decreases items, 0int,
{
    let t = items_text(items) + seq![']'] + rest;
    let v = items[0];
    let n = to_text(v).len() as int;
    lemma_text_start(v);
    if items.len() == 1 {
        let after = seq![']'] + rest;
        assert(t =~= to_text(v) + after);
        lemma_value_reads_back(v, after);
        assert(t.skip(n) =~= after);
        lemma_ws_len_zero(after);
        step_elements(t, v, n);
        assert(seq![v] =~= items);
    } else {
        let tail = items.drop_first();
        let after = seq![','] + items_text(tail) + seq![']'] + rest;
        assert(t =~= to_text(v) + after);
        lemma_value_reads_back(v, after);
        assert(t.skip(n) =~= after);
        lemma_ws_len_zero(after);
        assert(after.skip(1) =~= items_text(tail) + seq![']'] + rest);
        lemma_items_read_back(tail, rest);
        step_elements(t, v, n);
        assert(seq![v] + tail =~= items);
    }
}

/// Object members read back as themselves, up to and including the `}`.
#[verifier::rlimit(60)]
proof fn lemma_members_read_back(ms: Seq<(Seq<char>, JsonValue)>, rest: Seq<char>)
    requires
        ms.len() > 0,
        members_wf(ms),
    ensures
        parse_members(members_text(ms) + seq!['}'] + rest) == Some(
            (ms, members_text(ms).len() + 1int),
        ),
    decreases ms, 0int,
{
    let t = members_text(ms) + seq!['}'] + rest;
    let key = ms[0].0;
    let v = ms[0].1;
    let e = spec_encode(key);
    let n = to_text(v).len() as int;
    lemma_text_start(v);
    let after: Seq<char> = if ms.len() == 1 {
        seq!['}'] + rest
    } else {
        seq![','] + members_text(ms.drop_first()) + seq!['}'] + rest
    };
    let from_colon = seq![':'] + to_text(v) + after;
    assert(t =~= e + from_colon);
    assert(e[0] == '"');
    lemma_ws_len_zero(t);
    lemma_encoded_string_reads_back(key, from_colon);
    assert(t.skip(1) =~= (e + from_colon).drop_first());
    let m = e.len() - 1;
    assert(t.skip(1 + m) =~= from_colon);
    lemma_ws_len_zero(from_colon);
    let r2 = to_text(v) + after;
    assert(t.skip(2 + m) =~= r2);
    lemma_value_reads_back(v, after);
    assert(r2.skip(n) =~= after);
    lemma_ws_len_zero(after);
    step_members(t, key, m, v, n);
    if ms.len() == 1 {
        assert(seq![(key, v)] =~= ms);
    } else {
        let tail = ms.drop_first();
        assert(after.skip(1) =~= members_text(tail) + seq!['}'] + rest);
        lemma_members_read_back(tail, rest);
        assert(seq![(key, v)] + tail =~= ms);
    }
}

/// A complete JSON text written by `to_text` reads back as its value.
pub proof fn lemma_json_reads_back(v: JsonValue)
    requires
        value_wf(v),
    ensures
        parse_json(to_text(v)) == Some(v),
{
    lemma_value_reads_back(v, Seq::<char>::empty());
    assert(to_text(v) + Seq::<char>::empty() =~= to_text(v));
    assert(to_text(v).skip(to_text(v).len() as int) =~= Seq::<char>::empty());
}

/// Array elements written from the back.
pub proof fn lemma_items_text_back(items: Seq<JsonValue>)
    requires
        items.len() >= 2,
    ensures
        items_text(items) == items_text(items.drop_last()) + seq![','] + to_text(items.last()),
    decreases items.len(),
{
    let init = items.drop_last();
    let tail = items.drop_first();
    if items.len() == 2 {
        assert(init.len() == 1 && init[0] == items[0]);
        assert(tail.len() == 1 && tail[0] == items[1]);
        assert(items_text(tail) == to_text(items[1]));
        assert(items_text(init) == to_text(items[0]));
    } else {
        lemma_items_text_back(tail);
        assert(tail.drop_last() =~= init.drop_first());
        assert(tail.last() == items.last());
        assert(init[0] == items[0]);
    }
    assert(items_text(items) =~= items_text(init) + seq![','] + to_text(items.last()));
}

} // verus!
