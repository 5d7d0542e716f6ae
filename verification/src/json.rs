//! A minimal JSON string encoder for the report and fix payloads that cross
//! the WebAssembly boundary as plain strings. The escaping is correct per
//! RFC 8259, and it is the single encoder through which every report escapes
//! user-controlled text.

use vstd::prelude::*;
use crate::text::str_chars;

verus! {

/// A lower-case hexadecimal digit.
pub open spec fn hex_digit(d: nat) -> char {
    if d < 10 {
        (('0' as u32) + d) as char
    } else {
        (('a' as u32) + (d - 10)) as char
    }
}

/// How `encode` writes one character.
pub open spec fn escape_char(c: char) -> Seq<char> {
    if c == '"' {
        seq!['\\', '"']
    } else if c == '\\' {
        seq!['\\', '\\']
    } else if c == '\n' {
        seq!['\\', 'n']
    } else if c == '\r' {
        seq!['\\', 'r']
    } else if c == '\t' {
        seq!['\\', 't']
    } else if (c as u32) < 0x20 {
        seq!['\\', 'u', '0', '0', hex_digit((c as u32 / 16) as nat), hex_digit((c as u32 % 16) as nat)]
    } else {
        seq![c]
    }
}

/// The characters of `s`, each written as `escape_char` writes it.
pub open spec fn escape_all(s: Seq<char>) -> Seq<char>
    decreases s.len(),
{
    if s.len() == 0 {
        seq![]
    } else {
        escape_all(s.drop_last()) + escape_char(s.last())
    }
}

/// `s` as an RFC 8259 JSON string literal, quotes included.
pub open spec fn spec_encode(s: Seq<char>) -> Seq<char> {
    seq!['"'] + escape_all(s) + seq!['"']
}

/// The lower-case hexadecimal digit of `d`.
fn hex_digit_char(d: u32) -> (r: char)
    requires
        d < 16,
    ensures
        r == hex_digit(d as nat),
{
    let b: u8 = d as u8;
    if b < 10 {
        (48u8 + b) as char
    } else {
        (97u8 + (b - 10)) as char
    }
}

/// Appends `s` encoded as a JSON string literal (see `encode`).
pub fn push_encoded(out: &mut String, s: &str)
    ensures
        final(out)@ == old(out)@ + spec_encode(s@),
{
    let chars = str_chars(s);
    let ghost start = out@;
    out.push('"');
    let mut i: usize = 0;
    while i < chars.len()
        invariant
            i <= chars.len(),
            chars@ == s@,
            out@ == start + seq!['"'] + escape_all(chars@.take(i as int)),
        decreases chars.len() - i,
    {
        let c = chars[i];
        let ghost before = out@;
        if c == '"' {
            out.push('\\');
            out.push('"');
        } else if c == '\\' {
            out.push('\\');
            out.push('\\');
        } else if c == '\n' {
            out.push('\\');
            out.push('n');
        } else if c == '\r' {
            out.push('\\');
            out.push('r');
        } else if c == '\t' {
            out.push('\\');
            out.push('t');
        } else if (c as u32) < 0x20 {
            let code: u32 = c as u32;
            out.push('\\');
            out.push('u');
            out.push('0');
            out.push('0');
            out.push(hex_digit_char(code / 16));
            out.push(hex_digit_char(code % 16));
        } else {
            out.push(c);
        }
        assert(out@ =~= before + escape_char(c));
        assert(chars@.take(i + 1).drop_last() =~= chars@.take(i as int));
        i += 1;
    }
    out.push('"');
    assert(chars@.take(chars.len() as int) =~= chars@);
    assert(out@ =~= start + spec_encode(s@));
}

/// Encodes `s` as a JSON string literal, including the surrounding quotes,
/// escaping quotes, backslashes, the named control characters `\n`, `\r` and
/// `\t`, and any other control character below U+0020 as a `\u00xx` sequence.
pub fn encode(s: &str) -> (r: String)
    ensures
        r@ == spec_encode(s@),
{
    let mut out = String::new();
    push_encoded(&mut out, s);
    out
}

/// No output character of `escape_all` is a control character below U+0020.
proof fn lemma_escape_all_no_control(s: Seq<char>)
    ensures
        forall|i: int| 0 <= i < escape_all(s).len() ==> (escape_all(s)[i] as u32) >= 0x20,
    decreases s.len(),
{
    if s.len() > 0 {
        lemma_escape_all_no_control(s.drop_last());
        let a = escape_all(s.drop_last());
        let b = escape_char(s.last());
        assert forall|i: int| 0 <= i < b.len() implies (b[i] as u32) >= 0x20 by {
            let c = s.last();
            if !(c == '"' || c == '\\' || c == '\n' || c == '\r' || c == '\t') && (c as u32) < 0x20 {
                let hi = (c as u32 / 16) as nat;
                let lo = (c as u32 % 16) as nat;
                assert(hi < 16 && lo < 16);
            }
        }
        assert(escape_all(s) =~= a + b);
    }
}

/// `s` holds no control character below U+0020, which a JSON text may not
/// hold raw.
pub open spec fn no_control(s: Seq<char>) -> bool {
    forall|i: int| 0 <= i < s.len() ==> (s[i] as u32) >= 0x20
}

/// Joined texts without control characters hold none.
pub proof fn lemma_no_control_concat(a: Seq<char>, b: Seq<char>)
    requires
        no_control(a),
        no_control(b),
    ensures
        no_control(a + b),
{
    assert forall|i: int| 0 <= i < (a + b).len() implies ((a + b)[i] as u32) >= 0x20 by {
        if i < a.len() {
            assert((a + b)[i] == a[i]);
        } else {
            assert((a + b)[i] == b[i - a.len()]);
        }
    }
}

/// An encoded string holds no raw control character: every character below
/// U+0020 is written as an escape sequence, as RFC 8259 requires, and the
/// literal starts and ends with a quote.
pub proof fn lemma_encode_has_no_raw_control_chars(s: Seq<char>)
    ensures
        spec_encode(s).len() >= 2,
        spec_encode(s)[0] == '"',
        spec_encode(s).last() == '"',
        forall|i: int| 0 <= i < spec_encode(s).len() ==> (spec_encode(s)[i] as u32) >= 0x20,
        no_control(spec_encode(s)),
{
    lemma_escape_all_no_control(s);
    let e = escape_all(s);
    assert forall|i: int| 0 <= i < spec_encode(s).len() implies (spec_encode(s)[i] as u32)
        >= 0x20 by {
        if i > 0 && i <= e.len() {
            assert(spec_encode(s)[i] == e[i - 1]);
        }
    }
}

// ---------------------------------------------------------------------------
// Reading JSON string literals back
// ---------------------------------------------------------------------------
/// The value of a hexadecimal digit of either case.
pub open spec fn hex_value(c: char) -> Option<nat> {
    if '0' <= c && c <= '9' {
        Some((c as u32 - '0' as u32) as nat)
    } else if 'a' <= c && c <= 'f' {
        Some((c as u32 - 'a' as u32 + 10) as nat)
    } else if 'A' <= c && c <= 'F' {
        Some((c as u32 - 'A' as u32 + 10) as nat)
    } else {
        None
    }
}

/// The value of the four hexadecimal digits that start `t`.
pub open spec fn hex4(t: Seq<char>) -> Option<nat> {
    if t.len() < 4 {
        None
    } else {
        match (hex_value(t[0]), hex_value(t[1]), hex_value(t[2]), hex_value(t[3])) {
            (Some(a), Some(b), Some(c), Some(d)) => Some(4096 * a + 256 * b + 16 * c + d),
            _ => None,
        }
    }
}

/// The character of the escape sequence that starts `t` (at its `\`), and
/// the sequence's length, per RFC 8259: `\" \\ \/ \b \f \n \r \t`,
/// `\uXXXX` for a character outside the surrogate range, and a
/// `\uXXXX\uXXXX` surrogate pair.
pub open spec fn read_escape(t: Seq<char>) -> Option<(char, int)> {
    if t.len() < 2 || t[0] != '\\' {
        None
    } else {
        let e = t[1];
        if e == '"' {
            Some(('"', 2))
        } else if e == '\\' {
            Some(('\\', 2))
        } else if e == '/' {
            Some(('/', 2))
        } else if e == 'b' {
            Some(('\u{8}', 2))
        } else if e == 'f' {
            Some(('\u{c}', 2))
        } else if e == 'n' {
            Some(('\n', 2))
        } else if e == 'r' {
            Some(('\r', 2))
        } else if e == 't' {
            Some(('\t', 2))
        } else if e == 'u' {
            match hex4(t.skip(2)) {
                Some(v) => if v < 0xd800 || v > 0xdfff {
                    Some((v as char, 6))
                } else if v <= 0xdbff && t.len() >= 12 && t[6] == '\\' && t[7] == 'u' {
                    match hex4(t.skip(8)) {
                        Some(w) => if 0xdc00 <= w && w <= 0xdfff {
                            Some(((0x10000 + (v - 0xd800) * 0x400 + (w - 0xdc00)) as char, 12))
                        } else {
                            None
                        },
                        None => None,
                    }
                } else {
                    None
                },
                None => None,
            }
        } else {
            None
        }
    }
}

/// Reads the rest of a JSON string literal whose opening quote was already
/// read: the characters it denotes, and how many characters it spans up to
/// and including its closing quote; `None` when `t` holds no valid rest of a
/// literal (an unescaped control character, a bad escape, no closing quote).
pub open spec fn read_string(t: Seq<char>) -> Option<(Seq<char>, int)>
    decreases t.len(),
{
    if t.len() == 0 {
        None
    } else if t[0] == '"' {
        Some((seq![], 1))
    } else if t[0] == '\\' {
        match read_escape(t) {
            Some((c, n)) => if 0 < n <= t.len() {
                match read_string(t.skip(n)) {
                    Some((r, m)) => Some((seq![c] + r, m + n)),
                    None => None,
                }
            } else {
                None
            },
            None => None,
        }
    } else if (t[0] as u32) < 0x20 {
        None
    } else {
        match read_string(t.drop_first()) {
            Some((r, m)) => Some((seq![t[0]] + r, m + 1)),
            None => None,
        }
    }
}

/// The characters that a complete JSON string literal denotes.
pub open spec fn decode_string(t: Seq<char>) -> Option<Seq<char>> {
    if t.len() > 0 && t[0] == '"' {
        match read_string(t.drop_first()) {
            Some((r, m)) => if m + 1 == t.len() {
                Some(r)
            } else {
                None
            },
            None => None,
        }
    } else {
        None
    }
}

/// `s` needs no escape in a JSON string: no quote, backslash or control
/// character.
pub open spec fn plain(s: Seq<char>) -> bool {
    forall|i: int| 0 <= i < s.len() ==> s[i] != '"' && s[i] != '\\' && (s[i] as u32) >= 0x20
}

proof fn lemma_plain_escape_all(s: Seq<char>)
    requires
        plain(s),
    ensures
        escape_all(s) == s,
    decreases s.len(),
{
    if s.len() > 0 {
        let init = s.drop_last();
        assert(plain(init)) by {
            assert forall|i: int| 0 <= i < init.len() implies init[i] != '"' && init[i] != '\\'
                && (init[i] as u32) >= 0x20 by {
                assert(init[i] == s[i]);
            }
        }
        lemma_plain_escape_all(init);
        assert(s.last() == s[s.len() - 1]);
        assert(escape_all(s) =~= init.push(s.last()));
    }
}

/// A plain string is written between quotes as it is.
pub proof fn lemma_plain_encode(s: Seq<char>)
    requires
        plain(s),
    ensures
        spec_encode(s) == seq!['"'] + s + seq!['"'],
{
    lemma_plain_escape_all(s);
}

/// `escape_all` read from the front.
proof fn lemma_escape_all_front(s: Seq<char>)
    requires
        s.len() > 0,
    ensures
        escape_all(s) == escape_char(s[0]) + escape_all(s.drop_first()),
    decreases s.len(),
{
    if s.len() == 1 {
        assert(s.drop_last().len() == 0);
        assert(s.drop_first().len() == 0);
        assert(s.last() == s[0]);
        assert(escape_all(s.drop_last()) =~= Seq::<char>::empty());
        assert(escape_all(s.drop_first()) =~= Seq::<char>::empty());
        assert(escape_all(s) =~= escape_char(s[0]) + escape_all(s.drop_first()));
    } else {
        lemma_escape_all_front(s.drop_last());
        assert(s.drop_last().drop_first() =~= s.drop_first().drop_last());
        assert(s.drop_first().last() == s.last());
        assert(escape_all(s) =~= escape_char(s[0]) + escape_all(s.drop_first()));
    }
}

/// A lower-case hexadecimal digit reads back as its value.
proof fn lemma_hex_digit_value(d: nat)
    requires
        d < 16,
    ensures
        hex_value(hex_digit(d)) == Some(d),
{
}

/// How one escaped character reads back.
proof fn lemma_read_escape_char(c: char, rest: Seq<char>)
    ensures
        ({
            let t = escape_char(c) + rest;
            &&& t.len() > 0
            &&& t[0] == '\\' ==> read_escape(t) == Some((c, escape_char(c).len() as int))
            &&& t[0] != '\\' ==> t[0] == c && c != '"' && (c as u32) >= 0x20 && escape_char(c).len() == 1
        }),
{
    let t = escape_char(c) + rest;
    let e = escape_char(c);
    if !(c == '"' || c == '\\' || c == '\n' || c == '\r' || c == '\t') && (c as u32) < 0x20 {
        let code = c as u32;
        let hi = (code / 16) as nat;
        let lo = (code % 16) as nat;
        lemma_hex_digit_value(hi);
        lemma_hex_digit_value(lo);
        assert(t.skip(2)[0] == hex_digit(0));
        assert(t.skip(2)[1] == hex_digit(0));
        assert(t.skip(2)[2] == hex_digit(hi));
        assert(t.skip(2)[3] == hex_digit(lo));
        lemma_hex_digit_value(0);
        assert(hex4(t.skip(2)) == Some(16 * hi + lo));
        assert(16 * hi + lo == code);
    }
    assert(t[0] == e[0]);
    if e.len() > 1 {
        assert(t[1] == e[1]);
    }
}

/// An encoded string body reads back as the string, and ends exactly at the
/// closing quote that follows it, whatever comes after.
proof fn lemma_read_escaped(s: Seq<char>, rest: Seq<char>)
    ensures
        read_string(escape_all(s) + seq!['"'] + rest) == Some((s, escape_all(s).len() + 1int)),
    decreases s.len(),
{
    let t = escape_all(s) + seq!['"'] + rest;
    if s.len() == 0 {
        assert(t[0] == '"');
        assert(s =~= Seq::<char>::empty());
    } else {
        let c = s[0];
        let tail = escape_all(s.drop_first()) + seq!['"'] + rest;
        lemma_escape_all_front(s);
        assert(t =~= escape_char(c) + tail);
        lemma_read_escape_char(c, tail);
        lemma_read_escaped(s.drop_first(), rest);
        let n = escape_char(c).len() as int;
        assert(t.skip(n) =~= tail);
        if n == 1 {
            assert(t.drop_first() =~= tail);
        }
        assert(seq![c] + s.drop_first() =~= s);
    }
}

/// Whatever follows it, an encoded string literal is read back, up to its
/// own closing quote, as exactly the string it encodes; so a JSON reader
/// splits a report at the same places and recovers every string in it.
pub proof fn lemma_encoded_string_reads_back(s: Seq<char>, rest: Seq<char>)
    ensures
        (spec_encode(s) + rest)[0] == '"',
        read_string((spec_encode(s) + rest).drop_first()) == Some(
            (s, spec_encode(s).len() - 1int),
        ),
        decode_string(spec_encode(s)) == Some(s),
{
    let e = spec_encode(s);
    assert((e + rest).drop_first() =~= escape_all(s) + seq!['"'] + rest);
    lemma_read_escaped(s, rest);
    assert(e.drop_first() =~= escape_all(s) + seq!['"'] + Seq::<char>::empty());
    lemma_read_escaped(s, Seq::<char>::empty());
}

} // verus!
