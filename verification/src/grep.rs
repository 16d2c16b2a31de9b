//! Reading the result lines of a search: `file:line:text`, `file:text` or a bare path.
use vstd::prelude::*;

use crate::number::{all_digits, i64_value, parse_i64};
use crate::pattern::{ascii_digit, ends_in_extension, has_extension};
use crate::pystr::{lemma_strip_ends, lemma_strip_start, py_split_ws, py_strip, split_ws, strip, strip_start};
use crate::text::{find_char, find_end, is_char, lemma_first_where, split_chars, split_on, starts_with, str_starts_with, strs};

verus! {

/// The line number that `s` denotes. A number beyond `i64` is the largest `i64`, and so is a text
/// that denotes none.
pub open spec fn line_no(s: Seq<char>) -> i64 {
    match i64_value(s) {
        Some(v) => v,
        None => i64::MAX,
    }
}

/// What follows the last slash.
pub open spec fn base_name(tok: Seq<char>) -> Seq<char> {
    split_on(tok, '/').last()
}

/// A token counts as a path if it holds a slash or ends in a file extension.
pub open spec fn path(tok: Seq<char>) -> bool {
    tok.len() > 0 && (tok.contains('/') || ends_in_extension(tok))
}

/// `s` without the colons at its end.
pub open spec fn trim_colons(s: Seq<char>) -> Seq<char>
    decreases s.len(),
{
    if s.len() > 0 && s.last() == ':' {
        trim_colons(s.drop_last())
    } else {
        s
    }
}

/// What a result line of a search names: the base name of a file, and a line in it.
pub open spec fn grep_candidate(line: Seq<char>) -> Option<(Seq<char>, Option<i64>)> {
    let t = strip(line);
    let fields = split_on(t, ':');
    if t.len() == 0 || starts_with(t, "[reranked"@) {
        None
    } else if fields.len() >= 3 && strip(fields[1]).len() > 0 && all_digits(strip(fields[1])) && path(fields[0]) {
        Some((base_name(fields[0]), Some(line_no(strip(fields[1])))))
    } else if fields.len() >= 2 && path(fields[0]) {
        Some((base_name(fields[0]), None))
    } else {
        let tok = trim_colons(split_ws(t)[0]);
        if path(tok) {
            Some((base_name(tok), None))
        } else {
            None
        }
    }
}

/// The line number that `s` denotes; what is not a number that fits is taken as the largest one.
pub fn parse_line_no(s: &str) -> (n: i64)
    ensures
        n == line_no(s@),
{
    match parse_i64(s) {
        Some(v) => v,
        None => i64::MAX,
    }
}

/// Splits `s` at the first `c`: what stands before it and what after it.
fn split_at_char(s: &str, c: char) -> (r: Option<(&str, &str)>)
    ensures
        match r {
            Some((before, after)) => {
                &&& split_on(s@, c) == seq![before@] + split_on(after@, c)
                &&& after@.len() < s@.len()
                &&& s@.contains(c)
            },
            None => split_on(s@, c) == seq![s@] && !s@.contains(c),
        },
{
    let k: usize = find_char(s, |x: char| -> (b: bool) ensures b == (x == c) { x == c }, Ghost(is_char(c)));
    let (before, tail) = split_chars(s, k);
    if tail.is_empty() {
        return None;
    }
    let (_, after) = split_chars(tail, 1);
    assert(s@.skip(k as int).skip(1) =~= s@.skip(k + 1));
    Some((before, after))
}

/// What follows the last slash, or all of `tok`.
pub fn basename(tok: &str) -> (r: &str)
    ensures
        r@ == base_name(tok@),
{
    let mut rest = tok;
    loop
        invariant
            base_name(rest@) == base_name(tok@),
        decreases rest@.len(),
    {
        match split_at_char(rest, '/') {
            None => {
                return rest;
            },
            Some((before, after)) => {
                proof {
                    lemma_split_on_nonempty(after@, '/');
                    assert((seq![before@] + split_on(after@, '/')).last() == split_on(after@, '/').last());
                }
                rest = after;
            },
        }
    }
}

/// Splitting yields at least one piece.
pub proof fn lemma_split_on_nonempty(s: Seq<char>, c: char)
    ensures
        split_on(s, c).len() > 0,
{
    lemma_first_where(s, is_char(c));
}

/// Whether the token counts as a path.
pub fn is_path(tok: &str) -> (r: bool)
    ensures
        r == path(tok@),
{
    !tok.is_empty() && (split_at_char(tok, '/').is_some() || has_extension(tok))
}

/// Whether every character is a decimal digit.
fn only_digits(s: &str) -> (r: bool)
    ensures
        r == all_digits(s@),
{
    let k: usize = find_char(s, |c: char| -> (b: bool) ensures b == !ascii_digit(c) { !('0' <= c && c <= '9') }, Ghost(|c: char| !ascii_digit(c)));
    split_chars(s, k).1.is_empty()
}

/// Trimming keeps what stands before the colons at the end.
proof fn lemma_trim_colons(s: Seq<char>, end: int)
    requires
        0 <= end <= s.len(),
        end > 0 ==> s[end - 1] != ':',
        forall|i: int| end <= i < s.len() ==> #[trigger] s[i] == ':',
    ensures
        trim_colons(s) == s.take(end),
    decreases s.len(),
{
    if end < s.len() {
        lemma_trim_colons(s.drop_last(), end);
        assert(s.drop_last().take(end) =~= s.take(end));
    } else {
        assert(s.take(end) =~= s);
    }
}

/// One result line of `grep` or `find`: the base name of the file it names and the line, if it
/// gives one.
pub fn parse_grep_candidate(line: &str) -> (r: Option<(String, Option<i64>)>)
    ensures
        (match r {
            Some((file, n)) => Some((file@, n)),
            None => None,
        }) == grep_candidate(line@),
{
    let full = line;
    let line = py_strip(full);
    if line.is_empty() || str_starts_with(line, "[reranked") {
        return None;
    }
    if let Some((first, tail)) = split_at_char(line, ':') {
        proof {
            lemma_split_on_nonempty(tail@, ':');
        }
        if let Some((second, after)) = split_at_char(tail, ':') {
            proof {
                lemma_split_on_nonempty(after@, ':');
            }
            let number = py_strip(second);
            if !number.is_empty() && only_digits(number) && is_path(first) {
                return Some((basename(first).to_string(), Some(parse_line_no(number))));
            }
        }
        if is_path(first) {
            return Some((basename(first).to_string(), None));
        }
    }
    proof {
        lemma_strip_ends(full@);
        lemma_strip_start(line@);
    }
    let words = py_split_ws(line);
    assert(strip_start(line@) == line@);
    assert(split_ws(line@).len() > 0);
    assert(strs(words@)[0] == words@[0]@);
    let word = words[0];
    let end: usize = find_end(word, |c: char| -> (b: bool) ensures b == (c != ':') { c != ':' }, Ghost(|c: char| c != ':'));
    let tok = split_chars(word, end).0;
    proof {
        lemma_trim_colons(word@, end as int);
    }
    if is_path(tok) {
        Some((basename(tok).to_string(), None))
    } else {
        None
    }
}

} // verus!
