//! Executable rules of the properties grammar. Each takes the input and a
//! position in it, and gives the position past what it matched.
use vstd::prelude::*;

use crate::grammar::{
    blank_end, comment_end, cont_end, entry_at, eol_end, eol_or_eof_end, escape_at, filler_end,
    is_eol_byte, is_key_byte, is_value_byte, is_ws, key_at, latin1, lemma_cont_end_bounds,
    lemma_filler_end_bounds, lemma_line_end_bounds, lemma_run_bounds, lemma_ws_end_bounds, line_end, raw_at, run, sep_end, unescape,
    value_at, ws_end, BACKSLASH, BANG, COLON, CR, EQUALS, FF, HASH, LF, LOWER_F, LOWER_N, LOWER_R,
    LOWER_T, LOWER_U, SPACE, TAB,
};

verus! {

/// A key/value pair read from a properties input.
#[derive(Clone, Debug, PartialEq, PartialOrd)]
pub struct Property {
    /// The identifier of the property.
    pub key: String,
    /// The value of the property.
    pub value: String,
}

impl View for Property {
    type V = (Seq<char>, Seq<char>);

    open spec fn view(&self) -> (Seq<char>, Seq<char>) {
        (self.key@, self.value@)
    }
}

/// Relies on `String::push`: appends one character at the end.
#[verifier::external_body]
fn push_char(s: &mut String, c: char)
    ensures
        final(s)@ == old(s)@.push(c),
{
    s.push(c)
}

/// The string of the characters that the bytes stand for, one per byte.
fn latin1_string(b: &Vec<u8>) -> (r: String)
    ensures
        r@ == latin1(b@),
{
    let mut out = String::new();
    let mut k: usize = 0;
    while k < b.len()
        invariant
            k <= b@.len(),
            out@ == latin1(b@.subrange(0, k as int)),
        decreases b@.len() - k,
    {
        assert(latin1(b@.subrange(0, k + 1)) =~= latin1(b@.subrange(0, k as int)).push(
            b@[k as int] as char,
        ));
        push_char(&mut out, b[k] as char);
        k = k + 1;
    }
    assert(b@.subrange(0, k as int) =~= b@);
    out
}

/// A found position as an integer.
pub open spec fn pos_of(r: Option<usize>) -> Option<int> {
    match r {
        Some(p) => Some(p as int),
        None => None,
    }
}

/// Whether a byte is horizontal whitespace.
fn is_whitespace(b: u8) -> (r: bool)
    ensures
        r == is_ws(b),
{
    b == SPACE || b == TAB || b == FF
}

/// Whether a byte is a carriage return or a line feed.
fn eol(c: u8) -> (r: bool)
    ensures
        r == is_eol_byte(c),
{
    c == CR || c == LF
}

/// The byte that an escaped byte stands for, e.g. `t` gives a tab.
pub fn escaped_char_to_char(v: u8) -> (r: u8)
    ensures
        r == unescape(v),
{
    if v == LOWER_T {
        TAB
    } else if v == LOWER_N {
        LF
    } else if v == LOWER_F {
        FF
    } else if v == LOWER_R {
        CR
    } else {
        v
    }
}

/// Skips spaces, tabs and form feeds.
pub fn consume_whitespaces(s: &[u8], i: usize) -> (r: usize)
    requires
        i <= s@.len(),
    ensures
        r == ws_end(s@, i as int),
{
    let mut j = i;
    while j < s.len() && is_whitespace(s[j])
        invariant
            i <= j <= s@.len(),
            ws_end(s@, i as int) == ws_end(s@, j as int),
        decreases s@.len() - j,
    {
        j = j + 1;
    }
    j
}

/// Skips everything up to the next CR or LF.
fn consume_till_eol(s: &[u8], i: usize) -> (r: usize)
    requires
        i <= s@.len(),
    ensures
        r == line_end(s@, i as int),
{
    let mut j = i;
    while j < s.len() && !eol(s[j])
        invariant
            i <= j <= s@.len(),
            line_end(s@, i as int) == line_end(s@, j as int),
        decreases s@.len() - j,
    {
        j = j + 1;
    }
    j
}

/// Consumes one end-of-line: `\r\n`, `\r` or `\n`.
pub fn consume_eol(s: &[u8], i: usize) -> (r: Option<usize>)
    requires
        i <= s@.len(),
    ensures
        pos_of(r) == eol_end(s@, i as int),
{
    if i < s.len() && s.len() - i >= 2 && s[i] == CR && s[i + 1] == LF {
        Some(i + 2)
    } else if i < s.len() && eol(s[i]) {
        Some(i + 1)
    } else {
        None
    }
}

/// Consumes an end-of-line, or nothing at the end of the input.
pub fn consume_eol_or_eof(s: &[u8], i: usize) -> (r: Option<usize>)
    requires
        i <= s@.len(),
    ensures
        pos_of(r) == eol_or_eof_end(s@, i as int),
{
    if i == s.len() {
        Some(i)
    } else {
        consume_eol(s, i)
    }
}

/// Consumes a line of whitespace only.
pub fn blank_line(s: &[u8], i: usize) -> (r: Option<usize>)
    requires
        i <= s@.len(),
    ensures
        pos_of(r) == blank_end(s@, i as int),
{
    let j = consume_whitespaces(s, i);
    proof {
        lemma_ws_end_bounds(s@, i as int);
    }
    consume_eol_or_eof(s, j)
}

/// Consumes a comment line, started by `#` or `!`.
pub fn comment_line(s: &[u8], i: usize) -> (r: Option<usize>)
    requires
        i <= s@.len(),
    ensures
        pos_of(r) == comment_end(s@, i as int),
{
    let j = consume_whitespaces(s, i);
    proof {
        lemma_ws_end_bounds(s@, i as int);
    }
    if j < s.len() && (s[j] == HASH || s[j] == BANG) {
        proof {
            lemma_line_end_bounds(s@, j + 1);
        }
        let k = consume_till_eol(s, j + 1);
        consume_eol_or_eof(s, k)
    } else {
        None
    }
}

/// Consumes a line continuation: a backslash, an end-of-line and the
/// whitespace after it.
pub fn consume_line(s: &[u8], i: usize) -> (r: Option<usize>)
    requires
        i <= s@.len(),
    ensures
        pos_of(r) == cont_end(s@, i as int),
{
    if i < s.len() && s[i] == BACKSLASH {
        match consume_eol(s, i + 1) {
            Some(j) => {
                proof {
                    lemma_ws_end_bounds(s@, j as int);
                }
                Some(consume_whitespaces(s, j))
            },
            None => None,
        }
    } else {
        None
    }
}

/// Skips whitespace and line continuations.
pub fn consume_whitespaces_and_lines(s: &[u8], i: usize) -> (r: usize)
    requires
        i <= s@.len(),
    ensures
        r == filler_end(s@, i as int),
{
    let mut j = i;
    loop
        invariant
            i <= j <= s@.len(),
            filler_end(s@, i as int) == filler_end(s@, j as int),
        ensures
            filler_end(s@, j as int) == j,
        decreases s@.len() - j,
    {
        if j < s.len() && is_whitespace(s[j]) {
            j = j + 1;
        } else {
            match consume_line(s, j) {
                Some(k) => {
                    proof {
                        lemma_cont_end_bounds(s@, j as int);
                    }
                    j = k;
                },
                None => {
                    break ;
                },
            }
        }
    }
    j
}

/// Consumes an escape, a backslash and a byte other than `u`, CR or LF, and
/// gives the byte it stands for.
fn escape_in_key_or_value(s: &[u8], i: usize) -> (r: Option<u8>)
    requires
        i <= s@.len(),
    ensures
        r == escape_at(s@, i as int),
{
    if i < s.len() && s.len() - i >= 2 && s[i] == BACKSLASH && s[i + 1] != LOWER_U && !eol(
        s[i + 1],
    ) {
        Some(escaped_char_to_char(s[i + 1]))
    } else {
        None
    }
}

/// Whether the byte at `i` stands unescaped in a key (`in_key`) or a value.
fn raw_char(s: &[u8], i: usize, in_key: bool) -> (r: bool)
    requires
        i <= s@.len(),
    ensures
        r == raw_at(s@, i as int, in_key),
{
    if i >= s.len() {
        false
    } else if in_key {
        let b = s[i];
        !(b == COLON || b == EQUALS || eol(b) || is_whitespace(b) || b == BACKSLASH)
    } else {
        let b = s[i];
        !(eol(b) || b == BACKSLASH)
    }
}

/// Consumes a run of key or value characters across line continuations; gives
/// its bytes, the end of the run and the end of its last character.
fn consume_run(s: &[u8], start: usize, in_key: bool) -> (r: (Vec<u8>, usize, usize))
    requires
        start <= s@.len(),
    ensures
        r.0@ == run(s@, start as int, in_key).0,
        r.1 == run(s@, start as int, in_key).1,
        r.2 == run(s@, start as int, in_key).2,
{
    let mut out: Vec<u8> = Vec::new();
    let mut pos = start;
    let mut last = start;
    loop
        invariant
            start <= pos <= s@.len(),
            run(s@, start as int, in_key).0 == out@ + run(s@, pos as int, in_key).0,
            run(s@, start as int, in_key).1 == run(s@, pos as int, in_key).1,
            run(s@, start as int, in_key).2 == if run(s@, pos as int, in_key).0.len() == 0 {
                last as int
            } else {
                run(s@, pos as int, in_key).2
            },
        ensures
            start <= pos <= s@.len(),
            run(s@, start as int, in_key).0 == out@,
            run(s@, start as int, in_key).1 == pos,
            run(s@, start as int, in_key).2 == last,
        decreases s@.len() - pos,
    {
        if pos >= s.len() {
            assert(out@ + Seq::<u8>::empty() =~= out@);
            break ;
        }
        let ghost r = run(s@, pos as int, in_key);
        match escape_in_key_or_value(s, pos) {
            Some(c) => {
                let ghost rest = run(s@, pos + 2, in_key).0;
                assert(out@ + r.0 == out@.push(c) + rest) by {
                    assert(r.0 == seq![c] + rest);
                    assert(out@ + (seq![c] + rest) =~= out@.push(c) + rest);
                }
                out.push(c);
                pos = pos + 2;
                last = pos;
            },
            None => {
                if raw_char(s, pos, in_key) {
                    let c = s[pos];
                    let ghost rest = run(s@, pos + 1, in_key).0;
                    assert(out@ + r.0 == out@.push(c) + rest) by {
                        assert(r.0 == seq![c] + rest);
                        assert(out@ + (seq![c] + rest) =~= out@.push(c) + rest);
                    }
                    out.push(c);
                    pos = pos + 1;
                    last = pos;
                } else {
                    match consume_line(s, pos) {
                        Some(j) => {
                            proof {
                                lemma_cont_end_bounds(s@, pos as int);
                            }
                            pos = j;
                        },
                        None => {
                            assert(out@ + Seq::<u8>::empty() =~= out@);
                            break ;
                        },
                    }
                }
            },
        }
    }
    (out, pos, last)
}

/// Consumes a key: one or more key characters or escapes, which line
/// continuations may interrupt. Ends after the last character.
pub fn consume_key(s: &[u8], i: usize) -> (r: Option<(String, usize)>)
    requires
        i <= s@.len(),
    ensures
        match key_at(s@, i as int) {
            Some((k, e)) => r is Some && (r->0).0@ == latin1(k) && (r->0).1 == e,
            None => r is None,
        },
{
    if escape_in_key_or_value(s, i).is_some() || raw_char(s, i, true) {
        let (b, _, e) = consume_run(s, i, true);
        Some((latin1_string(&b), e))
    } else {
        None
    }
}

/// Consumes a value: any number of value characters or escapes, and line
/// continuations among them.
pub fn consume_value(s: &[u8], i: usize) -> (r: (String, usize))
    requires
        i <= s@.len(),
    ensures
        r.0@ == latin1(value_at(s@, i as int).0),
        r.1 == value_at(s@, i as int).1,
{
    let (b, e, _) = consume_run(s, i, false);
    (latin1_string(&b), e)
}

/// Consumes a key/value line: the key, an optional `:` or `=`, the value and
/// the end of the line, with whitespace and continuations around them.
pub fn kv_line(s: &[u8], i: usize) -> (r: Option<(Property, usize)>)
    requires
        i <= s@.len(),
    ensures
        match entry_at(s@, i as int) {
            Some((e, j)) => r is Some && (r->0).0@ == (latin1(e.0), latin1(e.1)) && (r->0).1 == j,
            None => r is None,
        },
{
    proof {
        lemma_filler_end_bounds(s@, i as int);
    }
    let key_start = consume_whitespaces_and_lines(s, i);
    let (key, key_stop) = match consume_key(s, key_start) {
        Some(k) => k,
        None => {
            return None;
        },
    };
    proof {
        lemma_run_bounds(s@, key_start as int, true);
        lemma_filler_end_bounds(s@, key_stop as int);
    }
    let sep_pos = consume_whitespaces_and_lines(s, key_stop);
    let after_sep = if sep_pos < s.len() && (s[sep_pos] == COLON || s[sep_pos] == EQUALS) {
        sep_pos + 1
    } else {
        sep_pos
    };
    assert(after_sep == sep_end(s@, sep_pos as int));
    proof {
        lemma_filler_end_bounds(s@, after_sep as int);
    }
    let value_start = consume_whitespaces_and_lines(s, after_sep);
    proof {
        lemma_run_bounds(s@, value_start as int, false);
    }
    let (value, value_stop) = consume_value(s, value_start);
    match consume_eol_or_eof(s, value_stop) {
        Some(next) => Some((Property { key, value }, next)),
        None => None,
    }
}

} // verus!
