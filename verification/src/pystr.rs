//! String operations with Python's semantics: lines, whitespace and slices as `str` has them.
use vstd::prelude::*;

pub use crate::dumps::{py_json_dumps, py_json_dumps_opts, py_json_quote_opts};
pub use crate::float::py_float_repr;

use crate::text::{find_char, find_end, first_where, lemma_first_where, split_chars, strs};

verus! {

/// The characters at which `str.splitlines()` ends a line.
pub open spec fn line_break(c: char) -> bool {
    ||| c == '\n'
    ||| c == '\r'
    ||| c == '\x0b'
    ||| c == '\x0c'
    ||| c == '\x1c'
    ||| c == '\x1d'
    ||| c == '\x1e'
    ||| c == '\u{85}'
    ||| c == '\u{2028}'
    ||| c == '\u{2029}'
}

/// The characters that `str.isspace()` accepts: Unicode White_Space and the C0 separators
/// `\x1c` to `\x1f`.
pub open spec fn space(c: char) -> bool {
    ||| '\t' <= c <= '\r'
    ||| '\x1c' <= c <= ' '
    ||| c == '\u{85}'
    ||| c == '\u{a0}'
    ||| c == '\u{1680}'
    ||| '\u{2000}' <= c <= '\u{200a}'
    ||| c == '\u{2028}'
    ||| c == '\u{2029}'
    ||| c == '\u{202f}'
    ||| c == '\u{205f}'
    ||| c == '\u{3000}'
}

/// The index of the first line break, or the length.
pub open spec fn line_end(s: Seq<char>) -> int {
    first_where(s, |c: char| line_break(c))
}

/// How many characters the line break at `k` takes: none at the end, two for `\r\n`.
pub open spec fn break_len(s: Seq<char>, k: int) -> int {
    if k >= s.len() {
        0
    } else if s[k] == '\r' && k + 1 < s.len() && s[k + 1] == '\n' {
        2
    } else {
        1
    }
}

/// `str.splitlines()`: the lines of `s` without their breaks; a break at the very end starts no
/// further line.
pub open spec fn splitlines(s: Seq<char>) -> Seq<Seq<char>>
    decreases s.len(),
{
    if s.len() == 0 {
        seq![]
    } else {
        let k = line_end(s);
        proof {
            lemma_first_where(s, |c: char| line_break(c));
        }
        seq![s.take(k)] + splitlines(s.skip(k + break_len(s, k)))
    }
}

/// `s` without its leading whitespace.
pub open spec fn strip_start(s: Seq<char>) -> Seq<char>
    decreases s.len(),
{
    if s.len() > 0 && space(s[0]) {
        strip_start(s.drop_first())
    } else {
        s
    }
}

/// `s` without its trailing whitespace.
pub open spec fn strip_end(s: Seq<char>) -> Seq<char>
    decreases s.len(),
{
    if s.len() > 0 && space(s.last()) {
        strip_end(s.drop_last())
    } else {
        s
    }
}

/// `str.strip()`.
pub open spec fn strip(s: Seq<char>) -> Seq<char> {
    strip_end(strip_start(s))
}

/// Some character of `s` is not whitespace.
pub open spec fn has_content(s: Seq<char>) -> bool {
    exists|i: int| 0 <= i < s.len() && !space(#[trigger] s[i])
}

/// `str.split()`: the maximal runs of characters that are not whitespace.
pub open spec fn split_ws(s: Seq<char>) -> Seq<Seq<char>>
    decreases s.len(),
{
    let t = strip_start(s);
    proof {
        lemma_strip_start(s);
        lemma_first_where(t, |c: char| space(c));
    }
    if t.len() == 0 {
        seq![]
    } else {
        let k = first_where(t, |c: char| space(c));
        seq![t.take(k)] + split_ws(t.skip(k))
    }
}

/// `s[:n]`.
pub open spec fn prefix(s: Seq<char>, n: int) -> Seq<char> {
    if n < s.len() {
        s.take(n)
    } else {
        s
    }
}

/// Stripping the front drops the characters before the first that is not whitespace.
pub proof fn lemma_strip_start(s: Seq<char>)
    ensures
        0 <= first_where(s, |c: char| !space(c)) <= s.len(),
        strip_start(s) == s.skip(first_where(s, |c: char| !space(c))),
        strip_start(s).len() > 0 ==> !space(strip_start(s)[0]),
    decreases s.len(),
{
    let p = |c: char| !space(c);
    lemma_first_where(s, p);
    if s.len() > 0 && space(s[0]) {
        lemma_strip_start(s.drop_first());
        let k = first_where(s.drop_first(), p);
        assert(s.drop_first().skip(k) =~= s.skip(k + 1));
    } else {
        assert(s.skip(0) =~= s);
    }
}

/// Stripping the end keeps the characters up to the last that is not whitespace.
proof fn lemma_strip_end(s: Seq<char>, end: int)
    requires
        0 <= end <= s.len(),
        end > 0 ==> !space(s[end - 1]),
        forall|i: int| end <= i < s.len() ==> space(#[trigger] s[i]),
    ensures
        strip_end(s) == s.take(end),
    decreases s.len(),
{
    if end < s.len() {
        lemma_strip_end(s.drop_last(), end);
        assert(s.drop_last().take(end) =~= s.take(end));
    } else {
        assert(s.take(end) =~= s);
    }
}

/// Whether a line ends at `c`.
pub fn is_line_break(c: char) -> (r: bool)
    ensures
        r == line_break(c),
{
    matches!(
        c,
        '\n' | '\r' | '\x0b' | '\x0c' | '\x1c' | '\x1d' | '\x1e' | '\u{85}' | '\u{2028}' | '\u{2029}'
    )
}

/// Splits `s`, which is not empty, after its first line: the line, and what follows its break.
fn split_line(s: &str) -> (parts: (&str, &str))
    requires
        s@.len() > 0,
    ensures
        parts.0@ == s@.take(line_end(s@)),
        parts.1@ == s@.skip(line_end(s@) + break_len(s@, line_end(s@))),
        parts.1@.len() < s@.len(),
{
    let k: usize = find_char(s, |c: char| -> (b: bool) ensures b == line_break(c) { is_line_break(c) }, Ghost(|c: char| line_break(c)));
    let (line, tail) = split_chars(s, k);
    let mut it = tail.chars();
    let first = it.next();
    let second = it.next();
    let n: usize = match (first, second) {
        (Some('\r'), Some('\n')) => 2,
        (Some(_), _) => 1,
        (None, _) => 0,
    };
    let (_, rest) = split_chars(tail, n);
    assert(s@.skip(k as int).skip(n as int) =~= s@.skip(k + n));
    (line, rest)
}

/// `str.splitlines()`: `\r\n` is one break, and a break at the end starts no further line.
pub fn py_splitlines(s: &str) -> (lines: Vec<&str>)
    ensures
        strs(lines@) == splitlines(s@),
{
    let mut lines: Vec<&str> = Vec::new();
    let mut rest = s;
    assert(strs(lines@) + splitlines(rest@) =~= splitlines(s@));
    while !rest.is_empty()
        invariant
            strs(lines@) + splitlines(rest@) == splitlines(s@),
        decreases rest@.len(),
    {
        let ghost before = strs(lines@);
        let (line, tail) = split_line(rest);
        lines.push(line);
        proof {
            assert(strs(lines@) =~= before.push(line@));
            assert(before.push(line@) + splitlines(tail@) =~= before + (seq![line@] + splitlines(tail@)));
        }
        rest = tail;
    }
    assert(strs(lines@) + splitlines(rest@) =~= strs(lines@));
    lines
}

/// `str.isspace()` of one character.
pub fn py_is_space(c: char) -> (r: bool)
    ensures
        r == space(c),
{
    matches!(
        c,
        '\t'..='\r' | '\x1c'..=' ' | '\u{85}' | '\u{a0}' | '\u{1680}' | '\u{2000}'..='\u{200a}'
            | '\u{2028}' | '\u{2029}' | '\u{202f}' | '\u{205f}' | '\u{3000}'
    )
}

/// The index of the first character that is not whitespace, or the number of characters.
fn content_start(s: &str) -> (k: usize)
    ensures
        k == first_where(s@, |c: char| !space(c)),
        k <= s@.len(),
{
    find_char(s, |c: char| -> (b: bool) ensures b == !space(c) { !py_is_space(c) }, Ghost(|c: char| !space(c)))
}

/// The index after the last character that is not whitespace, or 0.
fn content_end(s: &str) -> (end: usize)
    ensures
        end <= s@.len(),
        strip_end(s@) == s@.take(end as int),
{
    let end: usize = find_end(s, |c: char| -> (b: bool) ensures b == !space(c) { !py_is_space(c) }, Ghost(|c: char| !space(c)));
    proof {
        lemma_strip_end(s@, end as int);
    }
    end
}

/// `str.strip()`.
pub fn py_strip(s: &str) -> (r: &str)
    ensures
        r@ == strip(s@),
{
    let (_, tail) = split_chars(s, content_start(s));
    proof {
        lemma_strip_start(s@);
    }
    let (body, _) = split_chars(tail, content_end(tail));
    body
}

/// Whether `s.strip()` is not empty.
pub fn py_has_content(s: &str) -> (r: bool)
    ensures
        r == has_content(s@),
        r == (strip(s@).len() > 0),
{
    proof {
        law_has_content_is_nonempty_strip(s@);
    }
    !py_strip(s).is_empty()
}

/// `str.split()`.
pub fn py_split_ws(s: &str) -> (parts: Vec<&str>)
    ensures
        strs(parts@) == split_ws(s@),
{
    let mut parts: Vec<&str> = Vec::new();
    let mut rest = s;
    assert(strs(parts@) + split_ws(rest@) =~= split_ws(s@));
    loop
        invariant
            strs(parts@) + split_ws(rest@) == split_ws(s@),
        decreases rest@.len(),
    {
        let (_, tail) = split_chars(rest, content_start(rest));
        proof {
            lemma_strip_start(rest@);
        }
        if tail.is_empty() {
            assert(strs(parts@) + split_ws(rest@) =~= strs(parts@));
            return parts;
        }
        let k: usize = find_char(tail, |c: char| -> (b: bool) ensures b == space(c) { py_is_space(c) }, Ghost(|c: char| space(c)));
        let (part, after) = split_chars(tail, k);
        let ghost before = strs(parts@);
        parts.push(part);
        proof {
            assert(strs(parts@) =~= before.push(part@));
            assert(before.push(part@) + split_ws(after@) =~= before + (seq![part@] + split_ws(after@)));
        }
        rest = after;
    }
}

/// `s[:n]`: the first `n` characters, or all of `s`.
pub fn char_prefix(s: &str, n: usize) -> (r: &str)
    ensures
        r@ == prefix(s@, n as int),
{
    let mut k: usize = 0;
    let mut it = s.chars();
    assert(s@.skip(0) =~= s@);
    while k < n
        invariant
            k <= n,
            k <= s@.len(),
            vstd::std_specs::iter::IteratorSpec::remaining(&it) == s@.skip(k as int),
        decreases n - k,
    {
        if it.next().is_none() {
            return s;
        }
        assert(s@.skip(k as int).drop_first() =~= s@.skip(k + 1));
        k = k + 1;
    }
    assert(s@.take(s@.len() as int) =~= s@);
    split_chars(s, n).0
}

/// `len(s)`: the number of characters.
pub fn char_len(s: &str) -> (n: usize)
    ensures
        n == s@.len(),
{
    s.unicode_len()
}

/// A text has content exactly when stripping it leaves something.
pub proof fn law_has_content_is_nonempty_strip(s: Seq<char>)
    ensures
        has_content(s) <==> strip(s).len() > 0,
{
    lemma_strip_start(s);
    let p = |c: char| !space(c);
    lemma_first_where(s, p);
    let k = first_where(s, p);
    let t = s.skip(k);
    if has_content(s) {
        let i = choose|i: int| 0 <= i < s.len() && !space(#[trigger] s[i]);
        assert(p(s[i]));
        lemma_strip_bounds(t);
    } else {
        if k < s.len() {
            assert(!space(s[k]));
        }
        assert(strip_end(t).len() == 0);
    }
}

/// Where stripping the end stops.
pub proof fn lemma_strip_bounds(t: Seq<char>)
    ensures
        strip_end(t).len() <= t.len(),
        strip_end(t) == t.take(strip_end(t).len() as int),
        strip_end(t).len() > 0 ==> !space(strip_end(t).last()),
        forall|i: int| strip_end(t).len() <= i < t.len() ==> space(#[trigger] t[i]),
    decreases t.len(),
{
    if t.len() > 0 && space(t.last()) {
        lemma_strip_bounds(t.drop_last());
        let n = strip_end(t).len();
        assert(t.drop_last().take(n as int) =~= t.take(n as int));
        assert forall|i: int| n <= i < t.len() implies space(#[trigger] t[i]) by {
            if i < t.len() - 1 {
                assert(t.drop_last()[i] == t[i]);
            }
        }
    } else {
        assert(t.take(t.len() as int) =~= t);
    }
}

/// A stripped text neither starts nor ends with whitespace.
pub proof fn lemma_strip_ends(s: Seq<char>)
    ensures
        strip(s).len() > 0 ==> !space(strip(s)[0]) && !space(strip(s).last()),
{
    lemma_strip_start(s);
    lemma_strip_bounds(strip_start(s));
}

} // verus!
