//! Laws of the result lines of a search: what the parts of a line say of the file and the line.
use vstd::prelude::*;

use crate::grep::{base_name, grep_candidate, line_no, path, trim_colons};
use crate::laws::commands::{law_pieces_lack_the_separator, lemma_line_no_of_decimal, line_number_of};
use crate::laws::numbers::law_decimal_is_digits;
use crate::laws::strings::{all_space, no_space};
use crate::laws::words::{law_base_name_of_parts, law_slash_makes_a_path, law_split_of_parts, law_words_of_parts};
use crate::number::{all_digits, decimal};
use crate::pattern::ascii_digit;
use crate::pystr::{lemma_strip_bounds, space, split_ws, strip, strip_end, strip_start};
use crate::text::{split_on, starts_with};

verus! {

/// Stripping the end of a text whose start ends in something else.
proof fn lemma_strip_end_concat(a: Seq<char>, b: Seq<char>)
    requires
        a.len() > 0,
        !space(a.last()),
    ensures
        strip_end(a + b) == a + strip_end(b),
    decreases b.len(),
{
    let s = a + b;
    if b.len() == 0 {
        assert(s =~= a);
        assert(a + strip_end(b) =~= a);
    } else if space(b.last()) {
        assert(s.last() == b.last());
        assert(s.drop_last() =~= a + b.drop_last());
        lemma_strip_end_concat(a, b.drop_last());
    } else {
        assert(s.last() == b.last());
    }
}

/// Stripping the start of a text with whitespace before it.
proof fn lemma_strip_start_concat(a: Seq<char>, b: Seq<char>)
    requires
        all_space(a),
        b.len() > 0,
        !space(b[0]),
    ensures
        strip_start(a + b) == b,
    decreases a.len(),
{
    if a.len() == 0 {
        assert(a + b =~= b);
    } else {
        assert(space(a[0]));
        assert forall|i: int| 0 <= i < a.drop_first().len() implies space(#[trigger] a.drop_first()[i]) by {
            assert(a.drop_first()[i] == a[i + 1]);
        }
        lemma_strip_start_concat(a.drop_first(), b);
        assert((a + b).drop_first() =~= a.drop_first() + b);
        assert((a + b)[0] == a[0]);
    }
}

/// Stripping a line with something at its start.
proof fn lemma_strip_line(before: Seq<char>, start: Seq<char>, rest: Seq<char>)
    requires
        all_space(before),
        start.len() > 0,
        !space(start[0]),
        !space(start.last()),
    ensures
        strip(before + (start + rest)) == start + strip_end(rest),
        forall|p: Seq<char>| #[trigger] starts_with(start + strip_end(rest), p) ==> starts_with(start + rest, p),
{
    assert((start + rest)[0] == start[0]);
    lemma_strip_start_concat(before, start + rest);
    lemma_strip_end_concat(start, rest);
    lemma_strip_bounds(rest);
    let t = start + strip_end(rest);
    assert forall|p: Seq<char>| #[trigger] starts_with(t, p) implies starts_with(start + rest, p) by {
        let n = p.len() as int;
        assert(t =~= (start + rest).take(t.len() as int));
        assert((start + rest).take(n) =~= t.take(n));
    }
}

/// Stripping takes no character that was not there.
proof fn lemma_strip_end_contains(s: Seq<char>, c: char)
    requires
        !s.contains(c),
    ensures
        !strip_end(s).contains(c),
{
    lemma_strip_bounds(s);
    if strip_end(s).contains(c) {
        let i = strip_end(s).index_of(c);
        assert(s[i] == c);
    }
}

/// A result line with three fields names the file of the first, where that is a path, and the line
/// of the second, where that is a number: `path:number:text`. Whitespace around the line and
/// around the number does not count.
pub proof fn law_three_fields_name_file_and_line(
    before: Seq<char>,
    tok: Seq<char>,
    number: Seq<char>,
    text: Seq<char>,
)
    requires
        all_space(before),
        path(tok),
        !tok.contains(':'),
        !space(tok[0]),
        !number.contains(':'),
        !starts_with(tok + seq![':'] + number + seq![':'] + text, "[reranked"@),
    ensures
        grep_candidate(before + (tok + seq![':'] + number + seq![':'] + text)) == Some(
            (
                base_name(tok),
                if strip(number).len() > 0 && all_digits(strip(number)) {
                    Some(line_no(strip(number)))
                } else {
                    None
                },
            ),
        ),
{
    let start = tok + seq![':'] + number + seq![':'];
    let line = before + (start + text);
    let t = start + strip_end(text);
    assert(start[0] == tok[0]);
    lemma_strip_line(before, start, text);
    let tail = strip_end(text);
    law_split_of_parts(tok, ':', number + seq![':'] + tail);
    law_split_of_parts(number, ':', tail);
    assert(t =~= tok + seq![':'] + (number + seq![':'] + tail));
    law_split_of_parts(tail, ':', tail);
    law_pieces_lack_the_separator(tail, ':');
    let fields = split_on(t, ':');
    assert(fields =~= seq![tok, number] + split_on(tail, ':'));
    assert(fields[0] == tok);
    assert(fields[1] == number);
    assert(line =~= before + (tok + seq![':'] + number + seq![':'] + text));
}

/// A result line with two fields names the file of the first, where that is a path, and no line:
/// `path:text`.
pub proof fn law_two_fields_name_the_file(before: Seq<char>, tok: Seq<char>, text: Seq<char>)
    requires
        all_space(before),
        path(tok),
        !tok.contains(':'),
        !space(tok[0]),
        !text.contains(':'),
        !starts_with(tok + seq![':'] + text, "[reranked"@),
    ensures
        grep_candidate(before + (tok + seq![':'] + text)) == Some((base_name(tok), None::<i64>)),
{
    let start = tok + seq![':'];
    assert(start[0] == tok[0]);
    lemma_strip_line(before, start, text);
    let tail = strip_end(text);
    lemma_strip_end_contains(text, ':');
    law_split_of_parts(tok, ':', tail);
    law_split_of_parts(tail, ':', tail);
    assert(split_on(start + tail, ':') =~= seq![tok, tail]);
}

/// A line without colons names the file of its first word, where that is a path, and otherwise
/// nothing.
pub proof fn law_bare_line_names_its_first_word(before: Seq<char>, word: Seq<char>, rest: Seq<char>)
    requires
        all_space(before),
        word.len() > 0,
        no_space(word),
        rest.len() > 0 ==> space(rest[0]),
        !word.contains(':'),
        !rest.contains(':'),
        !starts_with(word + rest, "[reranked"@),
    ensures
        grep_candidate(before + (word + rest)) == if path(word) {
            Some((base_name(word), None::<i64>))
        } else {
            None
        },
{
    assert(!space(word[0]));
    assert(!space(word[word.len() - 1]));
    lemma_strip_line(before, word, rest);
    let tail = strip_end(rest);
    let t = word + tail;
    lemma_strip_end_contains(rest, ':');
    lemma_first_word(word, rest);
    assert(!t.contains(':')) by {
        if t.contains(':') {
            let i = t.index_of(':');
            if i < word.len() {
                assert(word[i] == ':');
            } else {
                assert(tail[i - word.len()] == ':');
            }
        }
    }
    law_split_of_parts(t, ':', t);
    assert(word.last() == word[word.len() - 1]);
    assert(word.contains(word.last()));
    assert(trim_colons(word) == word);
}

/// The first word of a stripped line.
proof fn lemma_first_word(word: Seq<char>, rest: Seq<char>)
    requires
        word.len() > 0,
        no_space(word),
        rest.len() > 0 ==> space(rest[0]),
    ensures
        split_ws(word + strip_end(rest)).len() > 0,
        split_ws(word + strip_end(rest))[0] == word,
{
    let tail = strip_end(rest);
    lemma_strip_bounds(rest);
    if tail.len() == 0 {
        assert(word + tail =~= word);
        law_words_of_parts(word, ' ', word);
    } else {
        let c = tail[0];
        assert(c == rest[0]);
        let more = tail.drop_first();
        assert(word + tail =~= word + seq![c] + more);
        law_words_of_parts(word, c, more);
    }
}

/// A line whose first field is no path names the file of its first word without the colons at its
/// end, where that is a path, and otherwise nothing: `./a/b.py:` does, `note: x` does not.
pub proof fn law_other_line_names_its_first_word(
    before: Seq<char>,
    word: Seq<char>,
    rest: Seq<char>,
)
    requires
        all_space(before),
        word.len() > 0,
        no_space(word),
        rest.len() > 0 ==> space(rest[0]),
        !path(split_on(word + strip_end(rest), ':')[0]),
        !starts_with(word + rest, "[reranked"@),
    ensures
        grep_candidate(before + (word + rest)) == if path(trim_colons(word)) {
            Some((base_name(trim_colons(word)), None::<i64>))
        } else {
            None
        },
{
    assert(!space(word[0]));
    assert(!space(word[word.len() - 1]));
    lemma_strip_line(before, word, rest);
    lemma_first_word(word, rest);
}

/// A line that starts with the mark of a reranked list names nothing.
pub proof fn law_reranked_lines_name_nothing(before: Seq<char>, rest: Seq<char>)
    requires
        all_space(before),
    ensures
        grep_candidate(before + ("[reranked"@ + rest)) is None,
{
    reveal_strlit("[reranked");
    let mark = "[reranked"@;
    lemma_strip_line(before, mark, rest);
    assert((mark + strip_end(rest)).take(mark.len() as int) =~= mark);
}

/// Digits are not whitespace, so that stripping keeps them.
proof fn lemma_strip_digits(s: Seq<char>)
    requires
        s.len() > 0,
        all_digits(s),
    ensures
        strip(s) == s,
{
    assert(ascii_digit(s[0]));
    assert(ascii_digit(s[s.len() - 1]));
}

/// A hit of `grep -n` names its file and its line: `dir/name:n:text`.
pub proof fn law_hit_names_file_and_line(dir: Seq<char>, name: Seq<char>, n: nat, text: Seq<char>)
    requires
        !dir.contains(':'),
        !name.contains(':'),
        !name.contains('/'),
        dir.len() > 0 ==> !space(dir[0]),
        !starts_with(dir + seq!['/'] + name + seq![':'] + decimal(n) + seq![':'] + text, "[reranked"@),
    ensures
        grep_candidate(dir + seq!['/'] + name + seq![':'] + decimal(n) + seq![':'] + text) == Some(
            (name, Some(line_number_of(n))),
        ),
{
    let tok = dir + seq!['/'] + name;
    let number = decimal(n);
    law_slash_makes_a_path(dir, name);
    law_base_name_of_parts(dir, name);
    law_decimal_is_digits(n);
    lemma_strip_digits(number);
    lemma_line_no_of_decimal(n);
    if tok.contains(':') {
        let i = tok.index_of(':');
        if i < dir.len() {
            assert(dir[i] == ':');
        } else if i > dir.len() {
            assert(name[i - dir.len() - 1] == ':');
        }
    }
    if number.contains(':') {
        let i = number.index_of(':');
        assert(ascii_digit(number[i]));
    }
    law_three_fields_name_file_and_line(seq![], tok, number, text);
    let line = tok + seq![':'] + number + seq![':'] + text;
    assert(Seq::<char>::empty() + line =~= line);
}

/// The same for a file without a directory, which its extension tells.
pub proof fn law_hit_in_place_names_file_and_line(name: Seq<char>, n: nat, text: Seq<char>)
    requires
        path(name),
        !name.contains(':'),
        !name.contains('/'),
        !space(name[0]),
        !starts_with(name + seq![':'] + decimal(n) + seq![':'] + text, "[reranked"@),
    ensures
        grep_candidate(name + seq![':'] + decimal(n) + seq![':'] + text) == Some((name, Some(line_number_of(n)))),
{
    let number = decimal(n);
    law_base_name_of_parts(name, name);
    law_decimal_is_digits(n);
    lemma_strip_digits(number);
    lemma_line_no_of_decimal(n);
    if number.contains(':') {
        let i = number.index_of(':');
        assert(ascii_digit(number[i]));
    }
    law_three_fields_name_file_and_line(seq![], name, number, text);
    let line = name + seq![':'] + number + seq![':'] + text;
    assert(Seq::<char>::empty() + line =~= line);
}

} // verus!
