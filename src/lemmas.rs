//! Facts about whole inputs: what inputs made of simple lines read as.
use vstd::prelude::*;

use crate::grammar::{
    blank_end, comment_end, cont_end, entries, entries_from, entry_at, eol_end, escape_at,
    filler_end, is_eol_byte, is_key_byte, is_value_byte, is_ws, key_at, line_end, raw_at, run,
    sep_end, value_at, ws_end, BACKSLASH, BANG, COLON, EQUALS, HASH, LF,
};

verus! {

/// A whitespace run of `w` bytes at `i`, followed by a byte that is not
/// whitespace or by the end of the input.
pub proof fn lemma_ws_end_at(s: Seq<u8>, i: int, w: int)
    requires
        0 <= i,
        0 <= w,
        i + w <= s.len(),
        forall|t: int| 0 <= t < w ==> is_ws(#[trigger] s[i + t]),
        i + w < s.len() ==> !is_ws(s[i + w]),
    ensures
        ws_end(s, i) == i + w,
    decreases w,
{
    if w > 0 {
        assert(is_ws(s[i + 0]));
        assert forall|t: int| 0 <= t < w - 1 implies is_ws(#[trigger] s[(i + 1) + t]) by {
            assert(is_ws(s[i + (t + 1)]));
        }
        lemma_ws_end_at(s, i + 1, w - 1);
    }
}

/// A run of `w` bytes other than CR and LF at `i`, followed by one of them
/// or by the end of the input.
pub proof fn lemma_line_end_at(s: Seq<u8>, i: int, w: int)
    requires
        0 <= i,
        0 <= w,
        i + w <= s.len(),
        forall|t: int| 0 <= t < w ==> !is_eol_byte(#[trigger] s[i + t]),
        i + w < s.len() ==> is_eol_byte(s[i + w]),
    ensures
        line_end(s, i) == i + w,
    decreases w,
{
    if w > 0 {
        assert(!is_eol_byte(s[i + 0]));
        assert forall|t: int| 0 <= t < w - 1 implies !is_eol_byte(#[trigger] s[(i + 1) + t]) by {
            assert(!is_eol_byte(s[i + (t + 1)]));
        }
        lemma_line_end_at(s, i + 1, w - 1);
    }
}

/// A line of whitespace only, ended by a line feed.
pub open spec fn is_blank_text(l: Seq<u8>) -> bool {
    &&& l.len() >= 1
    &&& l.last() == LF
    &&& forall|t: int| 0 <= t < l.len() - 1 ==> is_ws(#[trigger] l[t])
}

/// A comment line with its mark at `w`: whitespace, `#` or `!`, bytes other
/// than CR and LF, then a line feed.
pub open spec fn is_comment_text_at(l: Seq<u8>, w: int) -> bool {
    &&& 0 <= w < l.len() - 1
    &&& l.last() == LF
    &&& forall|t: int| 0 <= t < w ==> is_ws(#[trigger] l[t])
    &&& (l[w] == HASH || l[w] == BANG)
    &&& forall|t: int| w < t < l.len() - 1 ==> !is_eol_byte(#[trigger] l[t])
}

/// A comment line, ended by a line feed.
pub open spec fn is_comment_text(l: Seq<u8>) -> bool {
    exists|w: int| is_comment_text_at(l, w)
}

/// After any bytes, a blank line or a comment line is passed over whole.
proof fn lemma_skip_trivia_line(p: Seq<u8>, l: Seq<u8>, rest: Seq<u8>)
    requires
        is_blank_text(l) || is_comment_text(l),
    ensures
        ({
            let s = p + l + rest;
            let i = p.len() as int;
            comment_end(s, i) is Some ==> comment_end(s, i) == Some(i + l.len())
        }),
        ({
            let s = p + l + rest;
            let i = p.len() as int;
            comment_end(s, i) is None ==> blank_end(s, i) == Some(i + l.len())
        }),
{
    let s = p + l + rest;
    let i = p.len() as int;
    let n = l.len() as int;
    assert forall|t: int| 0 <= t < n implies #[trigger] s[i + t] == l[t] by {}
    if is_blank_text(l) {
        assert forall|t: int| 0 <= t < n - 1 implies is_ws(#[trigger] s[i + t]) by {
            assert(s[i + t] == l[t]);
        }
        assert(s[i + (n - 1)] == LF);
        lemma_ws_end_at(s, i, n - 1);
        assert(comment_end(s, i) is None);
        assert(eol_end(s, i + n - 1) == Some(i + n));
    } else {
        let w = choose|w: int| is_comment_text_at(l, w);
        assert forall|t: int| 0 <= t < w implies is_ws(#[trigger] s[i + t]) by {
            assert(s[i + t] == l[t]);
        }
        assert(s[i + w] == l[w]);
        lemma_ws_end_at(s, i, w);
        assert forall|t: int| 0 <= t < n - 1 - (w + 1) implies !is_eol_byte(
            #[trigger] s[(i + w + 1) + t],
        ) by {
            assert(s[i + (w + 1 + t)] == l[w + 1 + t]);
        }
        assert(s[i + (n - 1)] == LF);
        lemma_line_end_at(s, i + w + 1, n - 1 - (w + 1));
        assert(eol_end(s, i + n - 1) == Some(i + n));
    }
}

/// After any bytes, blank and comment lines up to the end give no entry.
proof fn lemma_trivia_from(p: Seq<u8>, lines: Seq<Seq<u8>>)
    requires
        forall|k: int| 0 <= k < lines.len() ==> is_blank_text(#[trigger] lines[k]) || is_comment_text(lines[k]),
    ensures
        entries_from(p + lines.flatten(), p.len() as int) == Ok::<Seq<(Seq<u8>, Seq<u8>)>, int>(Seq::empty()),
    decreases lines.len(),
{
    if lines.len() == 0 {
        assert(p + lines.flatten() =~= p);
    } else {
        let l = lines[0];
        let rest = lines.drop_first();
        let s = p + lines.flatten();
        assert(s =~= p + l + rest.flatten());
        assert(s =~= (p + l) + rest.flatten());
        assert forall|k: int| 0 <= k < rest.len() implies is_blank_text(#[trigger] rest[k]) || is_comment_text(rest[k]) by {
            assert(rest[k] == lines[k + 1]);
        }
        lemma_trivia_from(p + l, rest);
        assert(is_blank_text(lines[0]) || is_comment_text(lines[0]));
        lemma_skip_trivia_line(p, l, rest.flatten());
    }
}

/// An input made only of blank lines and comment lines, each ended by a line
/// feed, holds no entry and reads without error.
pub proof fn lemma_only_comments_and_blanks(lines: Seq<Seq<u8>>)
    requires
        forall|k: int| 0 <= k < lines.len() ==> is_blank_text(#[trigger] lines[k]) || is_comment_text(lines[k]),
    ensures
        entries(lines.flatten()) == Ok::<Seq<(Seq<u8>, Seq<u8>)>, int>(Seq::empty()),
{
    lemma_trivia_from(Seq::empty(), lines);
    assert(Seq::<u8>::empty() + lines.flatten() =~= lines.flatten());
}

/// Whitespace and continuations at `i`: a whitespace run of `w` bytes,
/// followed by neither whitespace nor a backslash.
pub proof fn lemma_filler_end_at(s: Seq<u8>, i: int, w: int)
    requires
        0 <= i,
        0 <= w,
        i + w <= s.len(),
        forall|t: int| 0 <= t < w ==> is_ws(#[trigger] s[i + t]),
        i + w < s.len() ==> !is_ws(s[i + w]) && s[i + w] != BACKSLASH,
    ensures
        filler_end(s, i) == i + w,
    decreases w,
{
    if w > 0 {
        assert(is_ws(s[i + 0]));
        assert forall|t: int| 0 <= t < w - 1 implies is_ws(#[trigger] s[(i + 1) + t]) by {
            assert(is_ws(s[i + (t + 1)]));
        }
        lemma_filler_end_at(s, i + 1, w - 1);
    } else {
        assert(cont_end(s, i) is None);
    }
}

/// A run of `n` unescaped key (or value) bytes at `i` that nothing of the
/// same kind follows reads as those bytes.
pub proof fn lemma_run_plain(s: Seq<u8>, i: int, n: int, in_key: bool)
    requires
        0 <= i,
        0 <= n,
        i + n <= s.len(),
        forall|t: int| 0 <= t < n ==> #[trigger] raw_at(s, i + t, in_key),
        i + n < s.len() ==> !raw_at(s, i + n, in_key) && s[i + n] != BACKSLASH,
    ensures
        run(s, i, in_key) == (s.subrange(i, i + n), i + n, i + n),
    decreases n,
{
    if n > 0 {
        assert(raw_at(s, i + 0, in_key));
        assert(escape_at(s, i) is None);
        assert forall|t: int| 0 <= t < n - 1 implies #[trigger] raw_at(s, (i + 1) + t, in_key) by {
            assert(raw_at(s, i + (t + 1), in_key));
        }
        lemma_run_plain(s, i + 1, n - 1, in_key);
        assert(seq![s[i]] + s.subrange(i + 1, i + n) =~= s.subrange(i, i + n));
    } else {
        assert(s.subrange(i, i) =~= Seq::<u8>::empty());
        if i < s.len() {
            assert(escape_at(s, i) is None);
            assert(cont_end(s, i) is None);
        }
    }
}

/// A byte sequence with its leading whitespace taken off.
pub open spec fn trim_start(v: Seq<u8>) -> Seq<u8>
    decreases v.len(),
{
    if v.len() > 0 && is_ws(v[0]) {
        trim_start(v.drop_first())
    } else {
        v
    }
}

/// What `trim_start` takes off is the whitespace run at the start.
pub proof fn lemma_trim_start(v: Seq<u8>)
    ensures
        ({
            let w = v.len() - trim_start(v).len();
            &&& 0 <= w <= v.len()
            &&& trim_start(v) == v.subrange(w, v.len() as int)
            &&& forall|t: int| 0 <= t < w ==> is_ws(#[trigger] v[t])
            &&& w < v.len() ==> !is_ws(v[w])
        }),
    decreases v.len(),
{
    if v.len() > 0 && is_ws(v[0]) {
        lemma_trim_start(v.drop_first());
        let w = v.len() - trim_start(v).len();
        assert(v.drop_first().subrange(w - 1, v.len() - 1) =~= v.subrange(w, v.len() as int));
        assert forall|t: int| 0 <= t < w implies is_ws(#[trigger] v[t]) by {
            if t > 0 {
                assert(v[t] == v.drop_first()[t - 1]);
            }
        }
    } else {
        assert(v.subrange(0, v.len() as int) =~= v);
    }
}

/// A key with no escape, whitespace or separator in it, that does not start
/// a comment.
pub open spec fn is_plain_key(k: Seq<u8>) -> bool {
    &&& k.len() >= 1
    &&& k[0] != HASH
    &&& k[0] != BANG
    &&& forall|t: int| 0 <= t < k.len() ==> is_key_byte(#[trigger] k[t])
}

/// A value with no escape and no end-of-line in it.
pub open spec fn is_plain_value(v: Seq<u8>) -> bool {
    forall|t: int| 0 <= t < v.len() ==> is_value_byte(#[trigger] v[t])
}

/// The line `key=value` ended by a line feed.
pub open spec fn kv_text(e: (Seq<u8>, Seq<u8>)) -> Seq<u8> {
    e.0 + seq![EQUALS] + e.1 + seq![LF]
}

/// A line `key=value` after any bytes reads as one entry, its value without
/// leading whitespace.
proof fn lemma_kv_line(p: Seq<u8>, k: Seq<u8>, v: Seq<u8>, rest: Seq<u8>)
    requires
        is_plain_key(k),
        is_plain_value(v),
    ensures
        ({
            let s = p + kv_text((k, v)) + rest;
            let i = p.len() as int;
            &&& comment_end(s, i) is None
            &&& blank_end(s, i) is None
            &&& entry_at(s, i) == Some(((k, trim_start(v)), i + kv_text((k, v)).len()))
        }),
{
    let l = kv_text((k, v));
    let s = p + l + rest;
    let i = p.len() as int;
    let n = k.len() as int;
    let m = v.len() as int;
    assert forall|t: int| 0 <= t < n implies #[trigger] s[i + t] == k[t] by {
        assert(l[t] == k[t]);
    }
    assert(s[i + n] == EQUALS) by {
        assert(l[n] == EQUALS);
    }
    assert forall|t: int| 0 <= t < m implies #[trigger] s[i + n + 1 + t] == v[t] by {
        assert(l[n + 1 + t] == v[t]);
    }
    assert(s[i + n + 1 + m] == LF) by {
        assert(l[n + 1 + m] == LF);
    }
    assert(s[i] == k[0]);
    assert(is_key_byte(k[0]));
    lemma_ws_end_at(s, i, 0);
    lemma_filler_end_at(s, i, 0);
    assert forall|t: int| 0 <= t < n implies #[trigger] raw_at(s, i + t, true) by {
        assert(is_key_byte(k[t]));
    }
    lemma_run_plain(s, i, n, true);
    assert(s.subrange(i, i + n) =~= k);
    lemma_filler_end_at(s, i + n, 0);
    assert(sep_end(s, i + n) == i + n + 1);
    lemma_trim_start(v);
    let w = m - trim_start(v).len();
    assert forall|t: int| 0 <= t < w implies is_ws(#[trigger] s[(i + n + 1) + t]) by {
        assert(s[i + n + 1 + t] == v[t]);
    }
    if w < m {
        assert(s[i + n + 1 + w] == v[w]);
        assert(is_value_byte(v[w]));
    }
    lemma_filler_end_at(s, i + n + 1, w);
    let j = i + n + 1 + w;
    assert forall|t: int| 0 <= t < m - w implies #[trigger] raw_at(s, j + t, false) by {
        assert(s[i + n + 1 + (w + t)] == v[w + t]);
        assert(is_value_byte(v[w + t]));
    }
    lemma_run_plain(s, j, m - w, false);
    assert(s.subrange(j, j + (m - w)) =~= trim_start(v));
    assert(value_at(s, j) == (trim_start(v), i + n + 1 + m));
    assert(eol_end(s, i + n + 1 + m) == Some(i + n + 1 + m + 1));
}

/// Entries as the lines that state them.
pub open spec fn kv_lines_text(es: Seq<(Seq<u8>, Seq<u8>)>) -> Seq<u8> {
    es.map_values(|e: (Seq<u8>, Seq<u8>)| kv_text(e)).flatten()
}

/// Entries with the leading whitespace of each value taken off.
pub open spec fn trim_values(es: Seq<(Seq<u8>, Seq<u8>)>) -> Seq<(Seq<u8>, Seq<u8>)> {
    es.map_values(|e: (Seq<u8>, Seq<u8>)| (e.0, trim_start(e.1)))
}

/// After any bytes, `key=value` lines up to the end read as their entries.
proof fn lemma_kv_lines_from(p: Seq<u8>, es: Seq<(Seq<u8>, Seq<u8>)>)
    requires
        forall|k: int| 0 <= k < es.len() ==> is_plain_key(#[trigger] es[k].0) && is_plain_value(es[k].1),
    ensures
        entries_from(p + kv_lines_text(es), p.len() as int) == Ok::<Seq<(Seq<u8>, Seq<u8>)>, int>(trim_values(es)),
    decreases es.len(),
{
    if es.len() == 0 {
        assert(p + kv_lines_text(es) =~= p);
        assert(trim_values(es) =~= Seq::empty());
    } else {
        let rest = es.drop_first();
        let lines = es.map_values(|e: (Seq<u8>, Seq<u8>)| kv_text(e));
        assert(lines.drop_first() =~= rest.map_values(|e: (Seq<u8>, Seq<u8>)| kv_text(e)));
        let l = kv_text(es[0]);
        let s = p + kv_lines_text(es);
        assert(kv_lines_text(es) == l + kv_lines_text(rest));
        assert(s =~= p + l + kv_lines_text(rest));
        assert(s =~= (p + l) + kv_lines_text(rest));
        assert forall|k: int| 0 <= k < rest.len() implies is_plain_key(#[trigger] rest[k].0) && is_plain_value(rest[k].1) by {
            assert(rest[k] == es[k + 1]);
        }
        lemma_kv_lines_from(p + l, rest);
        assert(is_plain_key(es[0].0) && is_plain_value(es[0].1));
        lemma_kv_line(p, es[0].0, es[0].1, kv_lines_text(rest));
        assert(es[0] == (es[0].0, es[0].1));
        assert(seq![(es[0].0, trim_start(es[0].1))] + trim_values(rest) =~= trim_values(es));
    }
}

/// An input of `key=value` lines, each ended by a line feed, with plain keys
/// and values, reads as one entry per line in the order of the lines: the
/// key as written, the value without its leading whitespace.
pub proof fn lemma_kv_lines(es: Seq<(Seq<u8>, Seq<u8>)>)
    requires
        forall|k: int| 0 <= k < es.len() ==> is_plain_key(#[trigger] es[k].0) && is_plain_value(es[k].1),
    ensures
        entries(kv_lines_text(es)) == Ok::<Seq<(Seq<u8>, Seq<u8>)>, int>(trim_values(es)),
{
    lemma_kv_lines_from(Seq::empty(), es);
    assert(Seq::<u8>::empty() + kv_lines_text(es) =~= kv_lines_text(es));
}

/// An input whose first line starts, after whitespace, with a separator `:`
/// or `=` is an error at its start: a key cannot be empty.
pub proof fn lemma_bare_separator(s: Seq<u8>, w: int)
    requires
        0 <= w < s.len(),
        forall|t: int| 0 <= t < w ==> is_ws(#[trigger] s[t]),
        s[w] == COLON || s[w] == EQUALS,
    ensures
        entries(s) == Err::<Seq<(Seq<u8>, Seq<u8>)>, int>(0),
{
    assert forall|t: int| 0 <= t < w implies is_ws(#[trigger] s[0 + t]) by {}
    lemma_ws_end_at(s, 0, w);
    lemma_filler_end_at(s, 0, w);
    assert(escape_at(s, w) is None);
    assert(key_at(s, w) is None);
}

} // verus!
