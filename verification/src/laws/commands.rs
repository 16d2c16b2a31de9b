//! Laws of commands and of the result lines of a search.
use vstd::prelude::*;
use vstd::utf8::is_ascii_chars;

use crate::command::{address_line, exit_status, file_of, first_line, first_named, kind_of, lemma_digits_value_nonneg, status_value, unquoted, KindModel, STATUS_HEAD};
use crate::grep::{base_name, grep_candidate, line_no, trim_colons};
use crate::laws::numbers::{law_decimal_is_digits, law_integer_reads_back};
use crate::laws::strings::all_space;
use crate::number::{all_digits, decimal, i64_value, integer_value, signed_decimal, unsigned_part};
use crate::pattern::{ascii_digit, ascii_word, char_at, digits_end, has_word, key_at, leftmost, line_at, line_start, number_after, number_at, number_end, range_at, range_start, read_words, search_words, small, space_end, spelled_at, status_at, tag_at, word_at, word_start};
use crate::pystr::{has_content, law_has_content_is_nonempty_strip, prefix, space, split_ws, strip};
use crate::text::{first_where, is_char, lemma_first_where, split_on};

verus! {

/// No piece holds the character at which a text is split.
pub proof fn law_pieces_lack_the_separator(s: Seq<char>, c: char)
    ensures
        forall|i: int| 0 <= i < split_on(s, c).len() ==> !(#[trigger] split_on(s, c)[i]).contains(c),
        split_on(s, c).len() > 0,
    decreases s.len(),
{
    let k = first_where(s, is_char(c));
    lemma_first_where(s, is_char(c));
    let pieces = split_on(s, c);
    if k >= s.len() {
        assert forall|i: int| 0 <= i < pieces.len() implies !(#[trigger] pieces[i]).contains(c) by {
            if pieces[i].contains(c) {
                let j = s.index_of(c);
                assert(!is_char(c)(s[j]));
            }
        }
    } else {
        let rest = split_on(s.skip(k + 1), c);
        law_pieces_lack_the_separator(s.skip(k + 1), c);
        assert forall|i: int| 0 <= i < pieces.len() implies !(#[trigger] pieces[i]).contains(c) by {
            if i > 0 {
                assert(pieces[i] == rest[i - 1]);
            } else if pieces[0].contains(c) {
                let j = s.take(k).index_of(c);
                assert(s.take(k)[j] == c);
                assert(!is_char(c)(s[j]));
            }
        }
    }
}

/// A base name holds no slash.
pub proof fn law_base_name_has_no_slash(tok: Seq<char>)
    ensures
        !base_name(tok).contains('/'),
{
    law_pieces_lack_the_separator(tok, '/');
}

/// A line number that is written in digits is not negative.
proof fn lemma_line_no_of_digits(s: Seq<char>)
    requires
        s.len() > 0,
        all_digits(s),
    ensures
        line_no(s) >= 0,
{
    assert(ascii_digit(s[0]));
    assert(unsigned_part(s) == s);
    lemma_digits_value_nonneg(s);
}

/// What a result line names is a base name, and a line number that is not negative. A blank line
/// names nothing.
pub proof fn law_candidate_is_a_base_name(line: Seq<char>)
    ensures
        grep_candidate(line) matches Some((file, n)) ==> !file.contains('/') && (n matches Some(k) ==> k >= 0),
        !has_content(line) ==> grep_candidate(line) is None,
{
    let t = strip(line);
    let fields = split_on(t, ':');
    law_has_content_is_nonempty_strip(line);
    law_base_name_has_no_slash(fields[0]);
    law_base_name_has_no_slash(trim_colons(split_ws(t)[0]));
    if fields.len() >= 3 && strip(fields[1]).len() > 0 && all_digits(strip(fields[1])) {
        lemma_line_no_of_digits(strip(fields[1]));
    }
}

/// A named file has no slash.
proof fn lemma_named_file_has_no_slash(words: Seq<Seq<char>>)
    ensures
        first_named(words) matches Some(file) ==> !file.contains('/'),
    decreases words.len(),
{
    if words.len() > 0 {
        law_base_name_has_no_slash(words[0]);
        lemma_named_file_has_no_slash(words.drop_first());
    }
}

/// The file of a command is a base name.
pub proof fn law_file_is_a_base_name(cmd: Seq<char>)
    ensures
        file_of(cmd) matches Some(file) ==> !file.contains('/'),
{
    lemma_named_file_has_no_slash(split_ws(unquoted(cmd)));
}

/// Only the start of an observation counts for its exit status.
pub proof fn law_status_stands_near_the_start(a: Seq<char>, b: Seq<char>)
    requires
        prefix(a, STATUS_HEAD as int) == prefix(b, STATUS_HEAD as int),
    ensures
        exit_status(a) == exit_status(b),
{
}

/// Where a run of digits ends.
proof fn lemma_digits_end(text: Seq<char>, i: int, end: int)
    requires
        0 <= i <= end <= text.len(),
        forall|k: int| i <= k < end ==> ascii_digit(#[trigger] text[k]),
        end < text.len() ==> !ascii_digit(text[end]),
    ensures
        digits_end(text, i) == end,
    decreases end - i,
{
    if i < end {
        assert(ascii_digit(text[i]));
        lemma_digits_end(text, i + 1, end);
    }
}

/// Where a run of whitespace ends.
proof fn lemma_space_end(text: Seq<char>, i: int, end: int)
    requires
        0 <= i <= end <= text.len(),
        forall|k: int| i <= k < end ==> space(#[trigger] text[k]),
        end < text.len() ==> !space(text[end]),
    ensures
        space_end(text, i) == end,
    decreases end - i,
{
    if i < end {
        assert(space(text[i]));
        lemma_space_end(text, i + 1, end);
    }
}

/// An index that is accepted, with none before it, is the leftmost.
proof fn lemma_leftmost(text: Seq<char>, p: spec_fn(int) -> bool, i: int, k: int)
    requires
        i <= k < text.len(),
        forall|j: int| i <= j < k ==> !#[trigger] p(j),
        p(k),
    ensures
        leftmost(text, p, i) == Some(k),
    decreases k - i,
{
    if i < k {
        assert(!p(i));
        lemma_leftmost(text, p, i + 1, k);
    }
}

/// What stands at an index of a text is its part there.
proof fn lemma_part(text: Seq<char>, before: Seq<char>, part: Seq<char>, after: Seq<char>)
    requires
        text == before + part + after,
    ensures
        text.subrange(before.len() as int, (before.len() + part.len()) as int) == part,
        forall|k: int| 0 <= k < part.len() ==> text[before.len() + k] == #[trigger] part[k],
        after.len() > 0 ==> text[(before.len() + part.len()) as int] == after[0],
        text.len() == before.len() + part.len() + after.len(),
{
    assert(text.subrange(before.len() as int, (before.len() + part.len()) as int) =~= part);
}

/// Digits within a text.
proof fn lemma_digits_part(text: Seq<char>, before: Seq<char>, digits: Seq<char>, after: Seq<char>)
    requires
        text == before + digits + after,
        all_digits(digits),
        after.len() > 0 ==> !ascii_digit(after[0]),
    ensures
        digits_end(text, before.len() as int) == before.len() + digits.len(),
        text.subrange(before.len() as int, (before.len() + digits.len()) as int) == digits,
{
    lemma_part(text, before, digits, after);
    let i = before.len() as int;
    assert forall|k: int| i <= k < i + digits.len() implies ascii_digit(#[trigger] text[k]) by {
        assert(ascii_digit(digits[k - i]));
    }
    lemma_digits_end(text, i, i + digits.len());
}

/// Whitespace within a text.
proof fn lemma_space_part(text: Seq<char>, before: Seq<char>, gap: Seq<char>, after: Seq<char>)
    requires
        text == before + gap + after,
        all_space(gap),
        after.len() > 0 ==> !space(after[0]),
    ensures
        space_end(text, before.len() as int) == before.len() + gap.len(),
{
    lemma_part(text, before, gap, after);
    let i = before.len() as int;
    assert forall|k: int| i <= k < i + gap.len() implies space(#[trigger] text[k]) by {
        assert(space(gap[k - i]));
    }
    lemma_space_end(text, i, i + gap.len());
}

/// `n`, or the largest line there is.
pub open spec fn line_number_of(n: nat) -> i64 {
    if n > i64::MAX {
        i64::MAX
    } else {
        n as i64
    }
}

/// The line that a decimal number names.
pub proof fn lemma_line_no_of_decimal(n: nat)
    ensures
        line_no(decimal(n)) == line_number_of(n),
{
    law_integer_reads_back(n as int);
    assert(signed_decimal(n as int) == decimal(n));
}

/// A range of lines tells where the output of a command starts, as in `sed -n 'a,bp' file`: at
/// the first number of the first range. `head` is what stands before it, without digits.
pub proof fn law_range_starts_the_output(head: Seq<char>, a: nat, b: nat, rest: Seq<char>)
    requires
        is_ascii_chars(head + decimal(a) + seq![','] + decimal(b) + seq!['p'] + rest),
        forall|i: int| 0 <= i < head.len() ==> !ascii_digit(#[trigger] head[i]),
        head.len() > 0 ==> !ascii_word(head.last()),
    ensures
        first_line(head + decimal(a) + seq![','] + decimal(b) + seq!['p'] + rest) == line_number_of(a),
{
    let cmd = head + decimal(a) + seq![','] + decimal(b) + seq!['p'] + rest;
    let i = head.len() as int;
    let comma = i + decimal(a).len();
    let before = head + decimal(a) + seq![','];
    law_decimal_is_digits(a);
    law_decimal_is_digits(b);
    assert(cmd =~= head + decimal(a) + (seq![','] + decimal(b) + seq!['p'] + rest));
    lemma_digits_part(cmd, head, decimal(a), seq![','] + decimal(b) + seq!['p'] + rest);
    assert(cmd =~= before + decimal(b) + (seq!['p'] + rest));
    lemma_digits_part(cmd, before, decimal(b), seq!['p'] + rest);
    assert(cmd[comma] == ',');
    assert(cmd[comma + 1 + decimal(b).len()] == 'p');
    let p = range_at(cmd);
    if i > 0 {
        assert(cmd[i - 1] == head.last());
    }
    assert(p(i));
    assert forall|j: int| 0 <= j < i implies !#[trigger] p(j) by {
        assert(cmd[j] == head[j]);
        lemma_digits_end(cmd, j, j);
    }
    lemma_leftmost(cmd, p, 0, i);
    lemma_line_no_of_decimal(a);
}

/// A single line tells where the output of `sed -n Np` starts, quoted or not, where the command
/// has no range of lines.
pub proof fn law_single_line_starts_the_output(
    first: Seq<char>,
    second: Seq<char>,
    quote: Seq<char>,
    n: nat,
    rest: Seq<char>,
)
    requires
        first.len() > 0,
        second.len() > 0,
        all_space(first),
        all_space(second),
        quote == seq!['\''] || quote == seq!['"'] || quote.len() == 0,
        is_ascii_chars(sed_line(first, second, quote, n, rest)),
        range_start(sed_line(first, second, quote, n, rest)) is None,
    ensures
        first_line(sed_line(first, second, quote, n, rest)) == line_number_of(n),
{
    let cmd = sed_line(first, second, quote, n, rest);
    let sed = seq!['s', 'e', 'd'];
    let flag = seq!['-', 'n'];
    let digits = decimal(n);
    let tail = seq!['p'] + rest;
    law_decimal_is_digits(n);
    assert(ascii_digit(digits[0]));
    let after_first = flag + second + quote + digits + tail;
    assert(cmd =~= sed + first + after_first);
    lemma_space_part(cmd, sed, first, after_first);
    lemma_part(cmd, sed, first, after_first);
    let f = 3 + first.len() as int;
    assert(cmd[f] == '-' && cmd[f + 1] == 'n');
    let before_second = sed + first + flag;
    let after_second = quote + digits + tail;
    assert(cmd =~= before_second + second + after_second);
    assert(after_second[0] == if quote.len() == 0 {
        digits[0]
    } else {
        quote[0]
    });
    lemma_space_part(cmd, before_second, second, after_second);
    lemma_part(cmd, before_second, second, after_second);
    let before_digits = before_second + second + quote;
    assert(cmd =~= before_digits + digits + tail);
    lemma_digits_part(cmd, before_digits, digits, tail);
    lemma_part(cmd, before_digits, digits, tail);
    let p = line_at(cmd);
    assert(cmd[0] == 's' && cmd[1] == 'e' && cmd[2] == 'd');
    assert(line_start(cmd, 0) == before_digits.len());
    assert(p(0));
    lemma_leftmost(cmd, p, 0, 0);
    lemma_line_no_of_decimal(n);
}

/// A command that has `sed` print the line `n`.
pub open spec fn sed_line(
    first: Seq<char>,
    second: Seq<char>,
    quote: Seq<char>,
    n: nat,
    rest: Seq<char>,
) -> Seq<char> {
    seq!['s', 'e', 'd'] + first + seq!['-', 'n'] + second + quote + decimal(n) + seq!['p'] + rest
}

/// Digits without a minus within a text are a number.
proof fn lemma_plain_number(text: Seq<char>, before: Seq<char>, digits: Seq<char>, after: Seq<char>)
    requires
        text == before + digits + after,
        digits.len() > 0,
        all_digits(digits),
        after.len() > 0 ==> !ascii_digit(after[0]),
    ensures
        number_at(text, before.len() as int),
        number_end(text, before.len() as int) == before.len() + digits.len(),
        !space(text[before.len() as int]),
{
    let i = before.len() as int;
    let last = digits.len() - 1;
    lemma_part(text, before, digits, after);
    lemma_digits_part(text, before, digits, after);
    assert(ascii_digit(digits[0]) && ascii_digit(digits[last]));
    assert(text[i + 0] == digits[0]);
    assert(text[i + last] == digits[last]);
}

/// Digits behind a minus within a text are a number.
proof fn lemma_minus_number(text: Seq<char>, before: Seq<char>, digits: Seq<char>, after: Seq<char>)
    requires
        text == before + seq!['-'] + digits + after,
        digits.len() > 0,
        all_digits(digits),
        after.len() > 0 ==> !ascii_digit(after[0]),
    ensures
        number_at(text, before.len() as int),
        number_end(text, before.len() as int) == before.len() + 1 + digits.len(),
        !space(text[before.len() as int]),
{
    let i = before.len() as int;
    let last = digits.len() - 1;
    let start = before + seq!['-'];
    lemma_part(text, start, digits, after);
    lemma_digits_part(text, start, digits, after);
    assert(ascii_digit(digits[last]));
    assert(text[i] == '-');
    assert(text[i + 1 + last] == digits[last]);
}

/// A number within a text, with a minus or without.
proof fn lemma_number_part(text: Seq<char>, before: Seq<char>, n: int, after: Seq<char>)
    requires
        text == before + signed_decimal(n) + after,
        after.len() > 0 ==> !ascii_digit(after[0]),
    ensures
        number_at(text, before.len() as int),
        number_end(text, before.len() as int) == before.len() + signed_decimal(n).len(),
        text.subrange(before.len() as int, number_end(text, before.len() as int)) == signed_decimal(n),
        !space(text[before.len() as int]),
{
    if n < 0 {
        let digits = decimal((-n) as nat);
        law_decimal_is_digits((-n) as nat);
        assert(text =~= before + seq!['-'] + digits + after);
        lemma_minus_number(text, before, digits, after);
    } else {
        law_decimal_is_digits(n as nat);
        lemma_plain_number(text, before, decimal(n as nat), after);
    }
    lemma_part(text, before, signed_decimal(n), after);
}

/// A word in small letters within a text.
proof fn lemma_spelled_part(text: Seq<char>, before: Seq<char>, word: Seq<char>, after: Seq<char>)
    requires
        text == before + word + after,
        forall|k: int| 0 <= k < word.len() ==> small(#[trigger] word[k]) == word[k],
    ensures
        spelled_at(text, before.len() as int, word),
{
    lemma_part(text, before, word, after);
}

/// The start of a text that starts with `a`, as far as `a` fits.
proof fn lemma_prefix_concat(a: Seq<char>, b: Seq<char>, n: int)
    requires
        a.len() <= n,
    ensures
        prefix(a + b, n) == a + prefix(b, n - a.len()),
{
    assert(prefix(a + b, n) =~= a + prefix(b, n - a.len()));
}

/// The exit status stands in the tag at the start of an observation, as in
/// `<returncode>n</returncode>`, with whitespace around the number or without.
pub proof fn law_tag_gives_the_status(before: Seq<char>, n: i64, after: Seq<char>, rest: Seq<char>)
    requires
        all_space(before),
        all_space(after),
        status_tag(before, n as int, after).len() <= STATUS_HEAD,
        is_ascii_chars(prefix(status_tag(before, n as int, after) + rest, STATUS_HEAD as int)),
    ensures
        exit_status(status_tag(before, n as int, after) + rest) == Some(n),
{
    let tag = status_tag(before, n as int, after);
    assert(Seq::<char>::empty() + tag =~= tag);
    law_tag_gives_the_status_anywhere(seq![], before, n, after, rest);
}

/// The tag of an exit status.
pub open spec fn status_tag(before: Seq<char>, n: int, after: Seq<char>) -> Seq<char> {
    "<returncode>"@ + before + signed_decimal(n) + after + "</returncode>"@
}

/// The exit status stands behind the key at the start of an observation, as in `returncode: n` or
/// `returncode=n`.
pub proof fn law_key_gives_the_status(mark: char, gap: Seq<char>, n: i64, rest: Seq<char>)
    requires
        mark == ':' || mark == '=',
        all_space(gap),
        rest.len() > 0 ==> !ascii_digit(rest[0]),
        status_key(mark, gap, n as int).len() <= STATUS_HEAD,
        is_ascii_chars(prefix(status_key(mark, gap, n as int) + rest, STATUS_HEAD as int)),
    ensures
        exit_status(status_key(mark, gap, n as int) + rest) == Some(n),
{
    let key = status_key(mark, gap, n as int);
    assert(Seq::<char>::empty() + key =~= key);
    law_key_gives_the_status_anywhere(seq![], mark, gap, n, rest);
}

/// The key of an exit status with its value.
pub open spec fn status_key(mark: char, gap: Seq<char>, n: int) -> Seq<char> {
    "returncode"@ + seq![mark] + gap + signed_decimal(n)
}

/// The tools that search.
pub open spec fn searches(word: Seq<char>) -> bool {
    ||| word == "grep"@
    ||| word == "rg"@
    ||| word == "egrep"@
    ||| word == "fgrep"@
    ||| word == "ag"@
    ||| word == "ack"@
    ||| word == "find"@
    ||| word == "git grep"@
}

/// The tools that print files.
pub open spec fn prints(word: Seq<char>) -> bool {
    ||| word == "cat"@
    ||| word == "sed"@
    ||| word == "head"@
    ||| word == "tail"@
    ||| word == "less"@
    ||| word == "more"@
    ||| word == "nl"@
    ||| word == "awk"@
    ||| word == "view"@
    ||| word == "open"@
}

/// The kind of output of a command in ASCII is told by the tools that it names as whole words: a
/// search, if one of them searches; a read of its file from its first line, if one of them prints
/// files and none searches; and anything else otherwise.
pub proof fn law_tools_tell_the_kind(cmd: Seq<char>)
    requires
        is_ascii_chars(cmd),
    ensures
        kind_of(cmd) is Search <==> exists|word: Seq<char>, i: int|
            searches(word) && #[trigger] word_at(cmd, word, i),
        kind_of(cmd) is Read <==> !(kind_of(cmd) is Search) && exists|word: Seq<char>, i: int|
            prints(word) && #[trigger] word_at(cmd, word, i),
        kind_of(cmd) matches KindModel::Read { file, base } ==> file == file_of(cmd) && base == first_line(cmd),
{
    let finders = search_words();
    let printers = read_words();
    assert(finders[0] == "grep"@ && finders[1] == "rg"@ && finders[2] == "egrep"@ && finders[3] == "fgrep"@);
    assert(finders[4] == "ag"@ && finders[5] == "ack"@ && finders[6] == "find"@ && finders[7] == "git grep"@);
    assert(printers[0] == "cat"@ && printers[1] == "sed"@ && printers[2] == "head"@ && printers[3] == "tail"@);
    assert(printers[4] == "less"@ && printers[5] == "more"@ && printers[6] == "nl"@ && printers[7] == "awk"@);
    assert(printers[8] == "view"@ && printers[9] == "open"@);
    if exists|word: Seq<char>, i: int| searches(word) && #[trigger] word_at(cmd, word, i) {
        let (word, i) = choose|word: Seq<char>, i: int| searches(word) && #[trigger] word_at(cmd, word, i);
        let k = finders.index_of(word);
        assert(finders.contains(word));
        assert(word_at(cmd, finders[k], i));
    }
    if has_word(cmd, finders) {
        let (k, i) = choose|k: int, i: int| 0 <= k < finders.len() && #[trigger] word_at(cmd, finders[k], i);
        assert(searches(finders[k]));
    }
    if exists|word: Seq<char>, i: int| prints(word) && #[trigger] word_at(cmd, word, i) {
        let (word, i) = choose|word: Seq<char>, i: int| prints(word) && #[trigger] word_at(cmd, word, i);
        let k = printers.index_of(word);
        assert(printers.contains(word));
        assert(word_at(cmd, printers[k], i));
    }
    if has_word(cmd, printers) {
        let (k, i) = choose|k: int, i: int| 0 <= k < printers.len() && #[trigger] word_at(cmd, printers[k], i);
        assert(prints(printers[k]));
    }
}

/// The output of a command starts at the line that a captured address names, and at the first line
/// without one.
pub proof fn law_address_names_the_line(g: Seq<char>)
    ensures
        address_line(Some(g)) == line_no(g),
        address_line(None) == 1,
        status_value(None) is None,
        integer_value(g) matches Some(v) ==> (status_value(Some(g)) matches Some(rc) ==> rc == v),
        integer_value(g) matches Some(v) ==> (status_value(Some(g)) is Some <==> i64::MIN <= v <= i64::MAX),
        integer_value(g) is None ==> status_value(Some(g)) is None,
{
}

/// A character with which no exit status starts.
pub open spec fn starts_no_status(c: char) -> bool {
    c != '<' && c != 'r' && c != 'R'
}

/// No exit status starts with such a character.
proof fn lemma_no_status_at(text: Seq<char>, j: int)
    requires
        0 <= j < text.len(),
        starts_no_status(text[j]),
    ensures
        !status_at(text)(j),
{
    reveal_strlit("<returncode>");
    reveal_strlit("returncode");
    assert("<returncode>"@[0] == '<');
    assert("returncode"@[0] == 'r');
    if tag_at(text, j) {
        assert(small(text[j + 0]) == '<');
    }
    if key_at(text, j) {
        assert(small(text[j + 0]) == 'r');
    }
}

/// A tag within a text.
proof fn lemma_tag_part(
    text: Seq<char>,
    head: Seq<char>,
    before: Seq<char>,
    n: int,
    after: Seq<char>,
    tail: Seq<char>,
)
    requires
        text == head + status_tag(before, n, after) + tail,
        all_space(before),
        all_space(after),
    ensures
        tag_at(text, head.len() as int),
        number_after(text, head.len() as int + 12) == signed_decimal(n),
        head.len() < text.len(),
{
    let open = "<returncode>"@;
    let close = "</returncode>"@;
    reveal_strlit("<returncode>");
    reveal_strlit("</returncode>");
    let number = signed_decimal(n);
    let end = close + tail;
    let a = head + open;
    let b = a + before;
    let c = b + number;
    let d = c + after;
    assert(text =~= head + open + (before + number + after + end));
    lemma_spelled_part(text, head, open, before + number + after + end);
    assert(text =~= b + number + (after + end));
    assert((after + end)[0] == '<' || space((after + end)[0])) by {
        if after.len() > 0 {
            assert(space(after[0]));
        }
    }
    lemma_number_part(text, b, n, after + end);
    assert(text =~= a + before + (number + after + end));
    assert((number + after + end)[0] == text[b.len() as int]);
    lemma_space_part(text, a, before, number + after + end);
    assert(text =~= c + after + end);
    lemma_space_part(text, c, after, end);
    assert(text =~= d + close + tail);
    lemma_spelled_part(text, d, close, tail);
}

/// The exit status stands in the first tag of an observation, as in `<returncode>n</returncode>`,
/// wherever that is within its first 400 characters.
pub proof fn law_tag_gives_the_status_anywhere(
    head: Seq<char>,
    before: Seq<char>,
    n: i64,
    after: Seq<char>,
    rest: Seq<char>,
)
    requires
        forall|i: int| 0 <= i < head.len() ==> starts_no_status(#[trigger] head[i]),
        all_space(before),
        all_space(after),
        (head + status_tag(before, n as int, after)).len() <= 400,
        is_ascii_chars(prefix(head + status_tag(before, n as int, after) + rest, 400)),
    ensures
        exit_status(head + status_tag(before, n as int, after) + rest) == Some(n),
{
    let tag = head + status_tag(before, n as int, after);
    lemma_prefix_concat(tag, rest, 400);
    let tail = prefix(rest, 400 - tag.len());
    let text = tag + tail;
    let i = head.len() as int;
    lemma_tag_part(text, head, before, n as int, after, tail);
    assert(text.take(i) =~= head);
    lemma_status_after(text, head, i);
    law_integer_reads_back(n as int);
}

/// The first exit status of a text that starts with no other.
proof fn lemma_status_after(text: Seq<char>, head: Seq<char>, i: int)
    requires
        i == head.len() < text.len(),
        text.take(i) == head,
        forall|j: int| 0 <= j < head.len() ==> starts_no_status(#[trigger] head[j]),
        tag_at(text, i) || key_at(text, i),
    ensures
        leftmost(text, status_at(text), 0) == Some(i),
{
    let p = status_at(text);
    assert(p(i));
    assert forall|j: int| 0 <= j < i implies !#[trigger] p(j) by {
        assert(text.take(i)[j] == text[j]);
        lemma_no_status_at(text, j);
    }
    lemma_leftmost(text, p, 0, i);
}

/// A number behind whitespace within a text.
proof fn lemma_number_behind(text: Seq<char>, a: Seq<char>, gap: Seq<char>, n: int, tail: Seq<char>)
    requires
        text == a + gap + signed_decimal(n) + tail,
        all_space(gap),
        tail.len() > 0 ==> !ascii_digit(tail[0]),
    ensures
        number_at(text, space_end(text, a.len() as int)),
        number_after(text, a.len() as int) == signed_decimal(n),
{
    let number = signed_decimal(n);
    let b = a + gap;
    lemma_number_part(text, b, n, tail);
    assert(text =~= a + gap + (number + tail));
    assert((number + tail)[0] == text[b.len() as int]);
    lemma_space_part(text, a, gap, number + tail);
}

/// The word of a key within a text, with its mark.
proof fn lemma_key_word(text: Seq<char>, head: Seq<char>, mark: char, rest: Seq<char>)
    requires
        text == head + "returncode"@ + seq![mark] + rest,
        head.len() > 0 ==> !ascii_word(head.last()),
    ensures
        spelled_at(text, head.len() as int, "returncode"@),
        word_start(text, head.len() as int),
        char_at(text, head.len() as int + 10, mark),
        text[head.len() as int] == 'r',
        text.len() > head.len() + 10,
        (head + "returncode"@ + seq![mark]).len() == head.len() + 11,
{
    let word = "returncode"@;
    let i = head.len() as int;
    reveal_strlit("returncode");
    assert(text =~= head + word + (seq![mark] + rest));
    lemma_spelled_part(text, head, word, seq![mark] + rest);
    assert(text[i + 10] == mark);
    if i > 0 {
        assert(text[i - 1] == head.last());
    }
    assert(text[i] == word[0]);
}

/// A key within a text.
proof fn lemma_key_part(text: Seq<char>, head: Seq<char>, mark: char, gap: Seq<char>, n: int, tail: Seq<char>)
    requires
        text == head + status_key(mark, gap, n) + tail,
        head.len() > 0 ==> !ascii_word(head.last()),
        mark == ':' || mark == '=',
        all_space(gap),
        tail.len() > 0 ==> !ascii_digit(tail[0]),
    ensures
        key_at(text, head.len() as int),
        !tag_at(text, head.len() as int),
        number_after(text, head.len() as int + 11) == signed_decimal(n),
        head.len() < text.len(),
{
    let a = head + "returncode"@ + seq![mark];
    let number = signed_decimal(n);
    assert(text =~= a + (gap + number + tail));
    lemma_key_word(text, head, mark, gap + number + tail);
    assert(text =~= a + gap + number + tail);
    lemma_number_behind(text, a, gap, n, tail);
    lemma_no_tag_at(text, head.len() as int);
}

/// No tag starts with a letter.
proof fn lemma_no_tag_at(text: Seq<char>, i: int)
    requires
        0 <= i < text.len(),
        text[i] == 'r',
    ensures
        !tag_at(text, i),
{
    reveal_strlit("<returncode>");
    assert("<returncode>"@[0] == '<');
    if tag_at(text, i) {
        assert(small(text[i + 0]) == '<');
    }
}

/// The exit status stands behind the first key of an observation, as in `returncode: n` or
/// `returncode=n`, wherever that is within its first 400 characters, as a word of its own.
pub proof fn law_key_gives_the_status_anywhere(
    head: Seq<char>,
    mark: char,
    gap: Seq<char>,
    n: i64,
    rest: Seq<char>,
)
    requires
        forall|i: int| 0 <= i < head.len() ==> starts_no_status(#[trigger] head[i]),
        head.len() > 0 ==> !ascii_word(head.last()),
        mark == ':' || mark == '=',
        all_space(gap),
        rest.len() > 0 ==> !ascii_digit(rest[0]),
        (head + status_key(mark, gap, n as int)).len() <= 400,
        is_ascii_chars(prefix(head + status_key(mark, gap, n as int) + rest, 400)),
    ensures
        exit_status(head + status_key(mark, gap, n as int) + rest) == Some(n),
{
    let key = head + status_key(mark, gap, n as int);
    lemma_prefix_concat(key, rest, 400);
    let tail = prefix(rest, 400 - key.len());
    let text = key + tail;
    let i = head.len() as int;
    lemma_key_part(text, head, mark, gap, n as int, tail);
    assert(text.take(i) =~= head);
    lemma_status_after(text, head, i);
    law_integer_reads_back(n as int);
}

/// Nothing is leftmost where nothing is accepted.
proof fn lemma_leftmost_none(text: Seq<char>, p: spec_fn(int) -> bool, i: int)
    requires
        0 <= i <= text.len(),
        forall|j: int| i <= j < text.len() ==> !#[trigger] p(j),
    ensures
        leftmost(text, p, i) is None,
    decreases text.len() - i,
{
    if i < text.len() {
        assert(!p(i));
        lemma_leftmost_none(text, p, i + 1);
    }
}

/// An observation whose first 400 characters hold no tag and no key has no exit status, whatever comes
/// later.
pub proof fn law_no_status_near_the_start(obs: Seq<char>)
    requires
        is_ascii_chars(prefix(obs, 400)),
        forall|i: int| 0 <= i < prefix(obs, 400).len() ==> !#[trigger] status_at(prefix(obs, 400))(i),
    ensures
        exit_status(obs) is None,
{
    lemma_leftmost_none(prefix(obs, 400), status_at(prefix(obs, 400)), 0);
}

/// Whatever stands before it, the first exit status within the first 400 characters of an observation
/// counts: the number in its tag or behind its key, if `i64` holds it.
pub proof fn law_first_status_counts(obs: Seq<char>, i: int)
    requires
        is_ascii_chars(prefix(obs, 400)),
        0 <= i < prefix(obs, 400).len(),
        status_at(prefix(obs, 400))(i),
        forall|j: int| 0 <= j < i ==> !#[trigger] status_at(prefix(obs, 400))(j),
    ensures
        tag_at(prefix(obs, 400), i) ==> exit_status(obs) == i64_value(number_after(prefix(obs, 400), i + 12)),
        !tag_at(prefix(obs, 400), i) ==> exit_status(obs) == i64_value(number_after(prefix(obs, 400), i + 11)),
{
    lemma_leftmost(prefix(obs, 400), status_at(prefix(obs, 400)), 0, i);
}

/// Whatever stands before it, the first range of lines in a command tells where its output starts:
/// at the number before the comma.
pub proof fn law_first_range_counts(cmd: Seq<char>, i: int)
    requires
        is_ascii_chars(cmd),
        0 <= i < cmd.len(),
        range_at(cmd)(i),
        forall|j: int| 0 <= j < i ==> !#[trigger] range_at(cmd)(j),
    ensures
        first_line(cmd) == line_no(cmd.subrange(i, digits_end(cmd, i))),
{
    lemma_leftmost(cmd, range_at(cmd), 0, i);
}

/// Without a range of lines, the first line that `sed -n` is to print tells where the output starts,
/// whatever stands before it.
pub proof fn law_first_single_line_counts(cmd: Seq<char>, i: int)
    requires
        is_ascii_chars(cmd),
        forall|j: int| 0 <= j < cmd.len() ==> !#[trigger] range_at(cmd)(j),
        0 <= i < cmd.len(),
        line_at(cmd)(i),
        forall|j: int| 0 <= j < i ==> !#[trigger] line_at(cmd)(j),
    ensures
        first_line(cmd) == line_no(cmd.subrange(line_start(cmd, i), digits_end(cmd, line_start(cmd, i)))),
{
    lemma_leftmost_none(cmd, range_at(cmd), 0);
    lemma_leftmost(cmd, line_at(cmd), 0, i);
}

/// Without either the output starts at the first line.
pub proof fn law_output_starts_at_the_first_line(cmd: Seq<char>)
    requires
        is_ascii_chars(cmd),
        forall|j: int| 0 <= j < cmd.len() ==> !#[trigger] range_at(cmd)(j),
        forall|j: int| 0 <= j < cmd.len() ==> !#[trigger] line_at(cmd)(j),
    ensures
        first_line(cmd) == 1,
{
    lemma_leftmost_none(cmd, range_at(cmd), 0);
    lemma_leftmost_none(cmd, line_at(cmd), 0);
}

} // verus!
