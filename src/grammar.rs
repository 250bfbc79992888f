//! The properties grammar as spec functions over a byte sequence and a
//! position in it. Each rule gives the position just past what it matches.
use vstd::prelude::*;

verus! {

pub const TAB: u8 = 0x09;
pub const LF: u8 = 0x0a;
pub const FF: u8 = 0x0c;
pub const CR: u8 = 0x0d;
pub const SPACE: u8 = 0x20;
pub const BANG: u8 = 0x21;
pub const HASH: u8 = 0x23;
pub const COLON: u8 = 0x3a;
pub const EQUALS: u8 = 0x3d;
pub const BACKSLASH: u8 = 0x5c;
pub const LOWER_F: u8 = 0x66;
pub const LOWER_N: u8 = 0x6e;
pub const LOWER_R: u8 = 0x72;
pub const LOWER_T: u8 = 0x74;
pub const LOWER_U: u8 = 0x75;

/// Horizontal whitespace: space, tab or form feed.
pub open spec fn is_ws(b: u8) -> bool {
    b == SPACE || b == TAB || b == FF
}

/// Carriage return or line feed.
pub open spec fn is_eol_byte(b: u8) -> bool {
    b == CR || b == LF
}

/// A byte that may stand unescaped in a key.
pub open spec fn is_key_byte(b: u8) -> bool {
    !(b == COLON || b == EQUALS || is_eol_byte(b) || is_ws(b) || b == BACKSLASH)
}

/// A byte that may stand unescaped in a value.
pub open spec fn is_value_byte(b: u8) -> bool {
    !(is_eol_byte(b) || b == BACKSLASH)
}

/// The byte that an escaped byte stands for: `t`, `n`, `f` and `r` give the
/// control characters, any other byte (the backslash included) itself.
pub open spec fn unescape(b: u8) -> u8 {
    if b == LOWER_T {
        TAB
    } else if b == LOWER_N {
        LF
    } else if b == LOWER_F {
        FF
    } else if b == LOWER_R {
        CR
    } else {
        b
    }
}

/// The characters that a sequence of bytes stands for, one per byte.
pub open spec fn latin1(b: Seq<u8>) -> Seq<char> {
    b.map_values(|x: u8| x as char)
}

/// End of the run of whitespace that starts at `i`.
pub open spec fn ws_end(s: Seq<u8>, i: int) -> int
    decreases s.len() - i,
{
    if 0 <= i < s.len() && is_ws(s[i]) {
        ws_end(s, i + 1)
    } else {
        i
    }
}

/// End of the run of bytes other than CR and LF that starts at `i`.
pub open spec fn line_end(s: Seq<u8>, i: int) -> int
    decreases s.len() - i,
{
    if 0 <= i < s.len() && !is_eol_byte(s[i]) {
        line_end(s, i + 1)
    } else {
        i
    }
}

/// One end-of-line: `\r\n`, `\r` or `\n`, the two-byte form first.
pub open spec fn eol_end(s: Seq<u8>, i: int) -> Option<int> {
    if 0 <= i && i + 1 < s.len() && s[i] == CR && s[i + 1] == LF {
        Some(i + 2)
    } else if 0 <= i < s.len() && is_eol_byte(s[i]) {
        Some(i + 1)
    } else {
        None
    }
}

/// An end-of-line, or the end of the input (matching nothing).
pub open spec fn eol_or_eof_end(s: Seq<u8>, i: int) -> Option<int> {
    if i == s.len() {
        Some(i)
    } else {
        eol_end(s, i)
    }
}

/// A line of whitespace only.
pub open spec fn blank_end(s: Seq<u8>, i: int) -> Option<int> {
    eol_or_eof_end(s, ws_end(s, i))
}

/// A comment line: whitespace, `#` or `!`, then anything up to the line's end.
pub open spec fn comment_end(s: Seq<u8>, i: int) -> Option<int> {
    let j = ws_end(s, i);
    if 0 <= j < s.len() && (s[j] == HASH || s[j] == BANG) {
        eol_or_eof_end(s, line_end(s, j + 1))
    } else {
        None
    }
}

/// A line continuation: a backslash, an end-of-line, then the whitespace
/// that indents the next line.
pub open spec fn cont_end(s: Seq<u8>, i: int) -> Option<int> {
    if 0 <= i < s.len() && s[i] == BACKSLASH {
        match eol_end(s, i + 1) {
            Some(j) => Some(ws_end(s, j)),
            None => None,
        }
    } else {
        None
    }
}

/// End of the run of whitespace and line continuations that starts at `i`.
pub open spec fn filler_end(s: Seq<u8>, i: int) -> int
    decreases s.len() - i,
{
    if 0 <= i < s.len() && is_ws(s[i]) {
        filler_end(s, i + 1)
    } else {
        match cont_end(s, i) {
            Some(j) => if i < j <= s.len() {
                filler_end(s, j)
            } else {
                i
            },
            None => i,
        }
    }
}

/// An escape at `i`: a backslash and a byte other than `u`, CR or LF; gives
/// the byte it stands for.
pub open spec fn escape_at(s: Seq<u8>, i: int) -> Option<u8> {
    if 0 <= i && i + 1 < s.len() && s[i] == BACKSLASH && s[i + 1] != LOWER_U && !is_eol_byte(
        s[i + 1],
    ) {
        Some(unescape(s[i + 1]))
    } else {
        None
    }
}

/// An unescaped byte of a key (`in_key`) or of a value at `i`.
pub open spec fn raw_at(s: Seq<u8>, i: int, in_key: bool) -> bool {
    0 <= i < s.len() && if in_key {
        is_key_byte(s[i])
    } else {
        is_value_byte(s[i])
    }
}

/// A run of characters of a key or value, interrupted by any number of line
/// continuations, starting at `i`. Gives the bytes it stands for, the end of
/// the whole run, and the end of its last character (`i` if it has none).
pub open spec fn run(s: Seq<u8>, i: int, in_key: bool) -> (Seq<u8>, int, int)
    decreases s.len() - i,
{
    if i < 0 || i >= s.len() {
        (Seq::empty(), i, i)
    } else if escape_at(s, i) is Some {
        let r = run(s, i + 2, in_key);
        (seq![escape_at(s, i)->0] + r.0, r.1, if r.0.len() == 0 { i + 2 } else { r.2 })
    } else if raw_at(s, i, in_key) {
        let r = run(s, i + 1, in_key);
        (seq![s[i]] + r.0, r.1, if r.0.len() == 0 { i + 1 } else { r.2 })
    } else {
        match cont_end(s, i) {
            Some(j) => if i < j <= s.len() {
                let r = run(s, j, in_key);
                (r.0, r.1, if r.0.len() == 0 { i } else { r.2 })
            } else {
                (Seq::empty(), i, i)
            },
            None => (Seq::empty(), i, i),
        }
    }
}

/// A key at `i`: it starts with a character, and ends after its last one.
pub open spec fn key_at(s: Seq<u8>, i: int) -> Option<(Seq<u8>, int)> {
    if escape_at(s, i) is Some || raw_at(s, i, true) {
        let r = run(s, i, true);
        Some((r.0, r.2))
    } else {
        None
    }
}

/// A value at `i`, possibly empty; trailing continuations belong to it.
pub open spec fn value_at(s: Seq<u8>, i: int) -> (Seq<u8>, int) {
    let r = run(s, i, false);
    (r.0, r.1)
}

/// Past the optional separator `:` or `=` at `i`.
pub open spec fn sep_end(s: Seq<u8>, i: int) -> int {
    if 0 <= i < s.len() && (s[i] == COLON || s[i] == EQUALS) {
        i + 1
    } else {
        i
    }
}

/// A key/value entry at `i`, with the position past it.
pub open spec fn entry_at(s: Seq<u8>, i: int) -> Option<((Seq<u8>, Seq<u8>), int)> {
    match key_at(s, filler_end(s, i)) {
        Some((k, key_stop)) => {
            let v = value_at(s, filler_end(s, sep_end(s, filler_end(s, key_stop))));
            match eol_or_eof_end(s, v.1) {
                Some(e) => Some(((k, v.0), e)),
                None => None,
            }
        },
        None => None,
    }
}

/// The entries of the input from `i` on, or the position at which no rule
/// makes progress.
pub open spec fn entries_from(s: Seq<u8>, i: int) -> Result<Seq<(Seq<u8>, Seq<u8>)>, int>
    decreases s.len() - i,
{
    if i < 0 || i >= s.len() {
        Ok(Seq::empty())
    } else if comment_end(s, i) is Some {
        let j = comment_end(s, i)->0;
        if i < j { entries_from(s, j) } else { Err(i) }
    } else if blank_end(s, i) is Some {
        let j = blank_end(s, i)->0;
        if i < j { entries_from(s, j) } else { Err(i) }
    } else {
        match entry_at(s, i) {
            Some((e, j)) => if i < j {
                match entries_from(s, j) {
                    Ok(rest) => Ok(seq![e] + rest),
                    Err(p) => Err(p),
                }
            } else {
                Err(i)
            },
            None => Err(i),
        }
    }
}

/// The entries of a whole input.
pub open spec fn entries(s: Seq<u8>) -> Result<Seq<(Seq<u8>, Seq<u8>)>, int> {
    entries_from(s, 0)
}

/// The whitespace run from `i` stays within the input.
pub proof fn lemma_ws_end_bounds(s: Seq<u8>, i: int)
    requires
        0 <= i <= s.len(),
    ensures
        i <= ws_end(s, i) <= s.len(),
    decreases s.len() - i,
{
    if i < s.len() && is_ws(s[i]) {
        lemma_ws_end_bounds(s, i + 1);
    }
}

/// The run up to the next end-of-line stays within the input.
pub proof fn lemma_line_end_bounds(s: Seq<u8>, i: int)
    requires
        0 <= i <= s.len(),
    ensures
        i <= line_end(s, i) <= s.len(),
    decreases s.len() - i,
{
    if i < s.len() && !is_eol_byte(s[i]) {
        lemma_line_end_bounds(s, i + 1);
    }
}

/// A run of characters stays within the input, its last character no
/// further than its end.
pub proof fn lemma_run_bounds(s: Seq<u8>, i: int, in_key: bool)
    requires
        0 <= i <= s.len(),
    ensures
        i <= run(s, i, in_key).2 <= run(s, i, in_key).1 <= s.len(),
    decreases s.len() - i,
{
    if i < s.len() {
        if escape_at(s, i) is Some {
            lemma_run_bounds(s, i + 2, in_key);
        } else if raw_at(s, i, in_key) {
            lemma_run_bounds(s, i + 1, in_key);
        } else if cont_end(s, i) is Some {
            lemma_cont_end_bounds(s, i);
            lemma_run_bounds(s, cont_end(s, i)->0, in_key);
        }
    }
}

/// A continuation ends past its start and within the input.
pub proof fn lemma_cont_end_bounds(s: Seq<u8>, i: int)
    requires
        0 <= i <= s.len(),
        cont_end(s, i) is Some,
    ensures
        i < cont_end(s, i)->0 <= s.len(),
{
    lemma_ws_end_bounds(s, eol_end(s, i + 1)->0);
}

/// Whitespace and continuations from `i` stay within the input.
pub proof fn lemma_filler_end_bounds(s: Seq<u8>, i: int)
    requires
        0 <= i <= s.len(),
    ensures
        i <= filler_end(s, i) <= s.len(),
    decreases s.len() - i,
{
    if i < s.len() && is_ws(s[i]) {
        lemma_filler_end_bounds(s, i + 1);
    } else if cont_end(s, i) is Some {
        lemma_cont_end_bounds(s, i);
        lemma_filler_end_bounds(s, cont_end(s, i)->0);
    }
}

} // verus!
