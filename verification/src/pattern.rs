//! The regular expressions by which commands and observations are read, and what they mean.
use vstd::prelude::*;
use vstd::utf8::is_ascii_chars;

use crate::pystr::space;
use crate::text::opt_str;

verus! {

/// A search tool occurs as a whole word.
pub const SEARCH: &'static str = r"\b(grep|rg|egrep|fgrep|ag|ack|find|git grep)\b";

/// A tool that prints files occurs as a whole word.
pub const READ: &'static str = r"\b(cat|sed|head|tail|less|more|nl|awk|view|open)\b";

/// A file name with a suffix of letters.
pub const FILE_ARG: &'static str = r"[\w./+-]*\.[A-Za-z]{1,5}";

/// A file extension at the end.
pub const EXTENSION: &'static str = r"\.[A-Za-z][A-Za-z0-9]{0,4}$";

/// An exit status, as a tag (the first group) or as a key with a value (the second). `\s` leaves
/// out the C0 separators, which count as whitespace here.
pub const RETURN_CODE: &'static str =
    r"(?i)<returncode>[\s\x1c-\x1f]*(-?\d+)[\s\x1c-\x1f]*</returncode>|\breturncode[:=][\s\x1c-\x1f]*(-?\d+)";

/// A range of lines that `sed` prints; the group is its first line.
pub const SED_RANGE: &'static str = r"\b(\d+),(\d+)p";

/// A single line that `sed` prints, quoted or not; the group is its number.
pub const SED_ONE: &'static str = r#"\bsed[\s\x1c-\x1f]+-n[\s\x1c-\x1f]+['"]?(\d+)p"#;

/// The patterns of this module, each of which compiles.
pub open spec fn known_pattern(pattern: Seq<char>) -> bool {
    ||| pattern == SEARCH@
    ||| pattern == READ@
    ||| pattern == FILE_ARG@
    ||| pattern == EXTENSION@
    ||| pattern == RETURN_CODE@
    ||| pattern == SED_RANGE@
    ||| pattern == SED_ONE@
}

/// `[A-Za-z]`.
pub open spec fn ascii_letter(c: char) -> bool {
    'A' <= c <= 'Z' || 'a' <= c <= 'z'
}

/// `[0-9]`.
pub open spec fn ascii_digit(c: char) -> bool {
    '0' <= c <= '9'
}

/// The word characters of ASCII.
pub open spec fn ascii_word(c: char) -> bool {
    ascii_letter(c) || ascii_digit(c) || c == '_'
}

/// `word` stands in `text` at `i`, with no word character on either side of it.
pub open spec fn word_at(text: Seq<char>, word: Seq<char>, i: int) -> bool {
    &&& 0 <= i <= text.len() - word.len()
    &&& text.subrange(i, i + word.len()) == word
    &&& i == 0 || !ascii_word(text[i - 1])
    &&& i + word.len() == text.len() || !ascii_word(text[i + word.len()])
}

/// One of `words` occurs in `text` as a whole word.
pub open spec fn has_word(text: Seq<char>, words: Seq<Seq<char>>) -> bool {
    exists|k: int, i: int| 0 <= k < words.len() && #[trigger] word_at(text, words[k], i)
}

/// The tools that search.
pub open spec fn search_words() -> Seq<Seq<char>> {
    seq!["grep"@, "rg"@, "egrep"@, "fgrep"@, "ag"@, "ack"@, "find"@, "git grep"@]
}

/// The tools that print files.
pub open spec fn read_words() -> Seq<Seq<char>> {
    seq![
        "cat"@,
        "sed"@,
        "head"@,
        "tail"@,
        "less"@,
        "more"@,
        "nl"@,
        "awk"@,
        "view"@,
        "open"@,
    ]
}

/// A dot with a letter right after it occurs in `text`.
pub open spec fn has_suffix(text: Seq<char>) -> bool {
    exists|i: int| 0 <= i < text.len() - 1 && #[trigger] text[i] == '.' && ascii_letter(text[i + 1])
}

/// The extension of `text` starts at `i`: a dot, a letter, and at most four letters or digits up
/// to the end.
pub open spec fn extension_at(text: Seq<char>, i: int) -> bool {
    &&& 0 <= i
    &&& 2 <= text.len() - i <= 6
    &&& text[i] == '.'
    &&& ascii_letter(text[i + 1])
    &&& forall|k: int| i + 2 <= k < text.len() ==> ascii_letter(#[trigger] text[k]) || ascii_digit(text[k])
}

/// `text` ends in an extension.
pub open spec fn ends_in_extension(text: Seq<char>) -> bool {
    exists|i: int| #[trigger] extension_at(text, i)
}

/// Not empty, and without an ASCII character that is not a digit.
pub open spec fn number_text(s: Seq<char>) -> bool {
    s.len() > 0 && forall|i: int| 0 <= i < s.len() && (#[trigger] s[i]) as u32 <= 0x7f ==> ascii_digit(s[i])
}

/// The index of the first character from `i` on that is no decimal digit, or the length.
pub open spec fn digits_end(text: Seq<char>, i: int) -> int
    decreases text.len() - i,
{
    if 0 <= i < text.len() && ascii_digit(text[i]) {
        digits_end(text, i + 1)
    } else {
        i
    }
}

/// The index of the first character from `i` on that is no whitespace, or the length.
pub open spec fn space_end(text: Seq<char>, i: int) -> int
    decreases text.len() - i,
{
    if 0 <= i < text.len() && space(text[i]) {
        space_end(text, i + 1)
    } else {
        i
    }
}

/// A word can start at `i`: no word character stands before it.
pub open spec fn word_start(text: Seq<char>, i: int) -> bool {
    i == 0 || !ascii_word(text[i - 1])
}

/// `c` stands in `text` at `i`.
pub open spec fn char_at(text: Seq<char>, i: int, c: char) -> bool {
    0 <= i < text.len() && text[i] == c
}

/// The small letter of a capital one; any other character as it is.
pub open spec fn small(c: char) -> char {
    if 'A' <= c <= 'Z' {
        (c as int + 32) as char
    } else {
        c
    }
}

/// `word`, which has no capital letters, stands in `text` at `i`, in letters of either case.
pub open spec fn spelled_at(text: Seq<char>, i: int, word: Seq<char>) -> bool {
    &&& 0 <= i <= text.len() - word.len()
    &&& forall|k: int| 0 <= k < word.len() ==> small(text[i + k]) == #[trigger] word[k]
}

/// The first index from `i` on that `p` accepts, if there is one before the end of `text`.
pub open spec fn leftmost(text: Seq<char>, p: spec_fn(int) -> bool, i: int) -> Option<int>
    decreases text.len() - i,
{
    if i >= text.len() {
        None
    } else if p(i) {
        Some(i)
    } else {
        leftmost(text, p, i + 1)
    }
}

/// A range of lines stands at `i`: digits, a comma, digits and a `p`.
pub open spec fn range_at(text: Seq<char>) -> spec_fn(int) -> bool {
    |i: int|
        {
            let comma = digits_end(text, i);
            let end = digits_end(text, comma + 1);
            &&& word_start(text, i)
            &&& i < comma
            &&& char_at(text, comma, ',')
            &&& comma + 1 < end
            &&& char_at(text, end, 'p')
        }
}

/// The first number of the first range of lines in ASCII text.
pub open spec fn range_start(text: Seq<char>) -> Option<Seq<char>> {
    match leftmost(text, range_at(text), 0) {
        Some(i) => Some(text.subrange(i, digits_end(text, i))),
        None => None,
    }
}

/// Where the number of a single line starts, if `sed -n` stands at `i`: behind whitespace and a
/// quote, if there is one.
pub open spec fn line_start(text: Seq<char>, i: int) -> int {
    let flag = space_end(text, i + 3);
    let arg = space_end(text, flag + 2);
    if char_at(text, arg, '\'') || char_at(text, arg, '"') {
        arg + 1
    } else {
        arg
    }
}

/// A command to print a single line stands at `i`: `sed`, `-n`, the number of the line and a `p`.
pub open spec fn line_at(text: Seq<char>) -> spec_fn(int) -> bool {
    |i: int|
        {
            let flag = space_end(text, i + 3);
            let arg = space_end(text, flag + 2);
            let number = line_start(text, i);
            let end = digits_end(text, number);
            &&& word_start(text, i)
            &&& char_at(text, i, 's') && char_at(text, i + 1, 'e') && char_at(text, i + 2, 'd')
            &&& i + 3 < flag
            &&& char_at(text, flag, '-') && char_at(text, flag + 1, 'n')
            &&& flag + 2 < arg
            &&& number < end
            &&& char_at(text, end, 'p')
        }
}

/// The number of the first single line that ASCII text has `sed` print.
pub open spec fn single_line(text: Seq<char>) -> Option<Seq<char>> {
    match leftmost(text, line_at(text), 0) {
        Some(i) => Some(text.subrange(line_start(text, i), digits_end(text, line_start(text, i)))),
        None => None,
    }
}

/// The end of the number at `i`, which may have a minus.
pub open spec fn number_end(text: Seq<char>, i: int) -> int {
    digits_end(
        text,
        if char_at(text, i, '-') {
            i + 1
        } else {
            i
        },
    )
}

/// A number stands at `i`: digits, with a minus before them or without.
pub open spec fn number_at(text: Seq<char>, i: int) -> bool {
    0 <= i < number_end(text, i) && ascii_digit(text[number_end(text, i) - 1])
}

/// The tag of an exit status stands at `i`, around a number.
pub open spec fn tag_at(text: Seq<char>, i: int) -> bool {
    let number = space_end(text, i + 12);
    &&& spelled_at(text, i, "<returncode>"@)
    &&& number_at(text, number)
    &&& spelled_at(text, space_end(text, number_end(text, number)), "</returncode>"@)
}

/// The key of an exit status stands at `i`, with a number behind it.
pub open spec fn key_at(text: Seq<char>, i: int) -> bool {
    &&& word_start(text, i)
    &&& spelled_at(text, i, "returncode"@)
    &&& char_at(text, i + 10, ':') || char_at(text, i + 10, '=')
    &&& number_at(text, space_end(text, i + 11))
}

/// An exit status stands at `i`.
pub open spec fn status_at(text: Seq<char>) -> spec_fn(int) -> bool {
    |i: int| tag_at(text, i) || key_at(text, i)
}

/// The number that starts behind the whitespace at `i`.
pub open spec fn number_after(text: Seq<char>, i: int) -> Seq<char> {
    text.subrange(space_end(text, i), number_end(text, space_end(text, i)))
}

/// The number of the first exit status in ASCII text, if that is a tag.
pub open spec fn tag_status(text: Seq<char>) -> Option<Seq<char>> {
    match leftmost(text, status_at(text), 0) {
        Some(i) if tag_at(text, i) => Some(number_after(text, i + 12)),
        _ => None,
    }
}

/// The number of the first exit status in ASCII text, if that is a key with a value.
pub open spec fn key_status(text: Seq<char>) -> Option<Seq<char>> {
    match leftmost(text, status_at(text), 0) {
        Some(i) if !tag_at(text, i) => Some(number_after(text, i + 11)),
        _ => None,
    }
}

/// Whether the pattern matches somewhere in the text, as `regex::Regex::is_match` decides it.
pub uninterp spec fn regex_matches(pattern: Seq<char>, text: Seq<char>) -> bool;

/// What a group of the pattern captured in its leftmost match in the text, if there is a match and
/// the group took part in it, as `regex::Regex::captures` finds it.
pub uninterp spec fn regex_group_text(pattern: Seq<char>, text: Seq<char>, group: nat) -> Option<Seq<char>>;

/// `regex::Regex::is_match` of the compiled pattern.
///
/// Claimed: each known pattern compiles, and the answer depends on the pattern and the text alone.
/// For `EXTENSION` and `FILE_ARG` it is spelled out, and so it is for `SEARCH` and `READ` on ASCII
/// text; which other characters are word characters is left to the crate's tables.
#[verifier::external_body]
fn regex_is_match(pattern: &str, text: &str) -> (found: bool)
    requires
        known_pattern(pattern@),
    ensures
        found == regex_matches(pattern@, text@),
        pattern@ == EXTENSION@ ==> found == ends_in_extension(text@),
        pattern@ == FILE_ARG@ ==> found == has_suffix(text@),
        pattern@ == SEARCH@ && is_ascii_chars(text@) ==> found == has_word(text@, search_words()),
        pattern@ == READ@ && is_ascii_chars(text@) ==> found == has_word(text@, read_words()),
{
    regex::Regex::new(pattern).unwrap().is_match(text)
}

/// `regex::Regex::captures` of the compiled pattern, then `regex::Captures::get` of the group.
///
/// Claimed: each known pattern compiles, and what is captured depends on the pattern, the text and
/// the group alone. The first group of `SED_RANGE` and of `SED_ONE` captures decimal digits only.
/// On ASCII text it is spelled out what that group captures, and so it is for the two groups of
/// `RETURN_CODE`; which other characters are digits, whitespace, word characters or letters of
/// either case is left to the crate's tables.
#[verifier::external_body]
fn regex_group(pattern: &str, text: &str, group: usize) -> (found: Option<String>)
    requires
        known_pattern(pattern@),
    ensures
        opt_str(found) == regex_group_text(pattern@, text@, group as nat),
        (pattern@ == SED_RANGE@ || pattern@ == SED_ONE@) && group == 1 ==> (found matches Some(g)
            ==> number_text(g@)),
        pattern@ == SED_RANGE@ && group == 1 && is_ascii_chars(text@) ==> opt_str(found) == range_start(text@),
        pattern@ == SED_ONE@ && group == 1 && is_ascii_chars(text@) ==> opt_str(found) == single_line(text@),
        pattern@ == RETURN_CODE@ && group == 1 && is_ascii_chars(text@) ==> opt_str(found) == tag_status(text@),
        pattern@ == RETURN_CODE@ && group == 2 && is_ascii_chars(text@) ==> opt_str(found) == key_status(text@),
{
    let captures = regex::Regex::new(pattern).unwrap().captures(text)?;
    captures.get(group).map(|m| m.as_str().to_string())
}

/// `cmd` names a search tool. On ASCII text this is decided by the words in it.
pub open spec fn search_command(cmd: Seq<char>) -> bool {
    if is_ascii_chars(cmd) {
        has_word(cmd, search_words())
    } else {
        regex_matches(SEARCH@, cmd)
    }
}

/// `cmd` names a tool that prints files. On ASCII text this is decided by the words in it.
pub open spec fn read_command(cmd: Seq<char>) -> bool {
    if is_ascii_chars(cmd) {
        has_word(cmd, read_words())
    } else {
        regex_matches(READ@, cmd)
    }
}

/// Whether the command names a search tool.
pub fn is_search(cmd: &str) -> (r: bool)
    ensures
        r == search_command(cmd@),
        r == regex_matches(SEARCH@, cmd@),
{
    regex_is_match(SEARCH, cmd)
}

/// Whether the command names a tool that prints files.
pub fn is_read(cmd: &str) -> (r: bool)
    ensures
        r == read_command(cmd@),
        r == regex_matches(READ@, cmd@),
{
    regex_is_match(READ, cmd)
}

/// Whether the word looks like a file name.
pub fn is_file_arg(word: &str) -> (r: bool)
    ensures
        r == has_suffix(word@),
{
    regex_is_match(FILE_ARG, word)
}

/// Whether the word ends in a file extension.
pub fn has_extension(word: &str) -> (r: bool)
    ensures
        r == ends_in_extension(word@),
{
    regex_is_match(EXTENSION, word)
}

/// The first of two captures, or else the second.
pub open spec fn either(a: Option<Seq<char>>, b: Option<Seq<char>>) -> Option<Seq<char>> {
    match a {
        Some(g) => Some(g),
        None => b,
    }
}

/// The number of the first exit status in `text`: in a tag, or after a key. On ASCII text this is
/// spelled out.
pub open spec fn status_text(text: Seq<char>) -> Option<Seq<char>> {
    if is_ascii_chars(text) {
        either(tag_status(text), key_status(text))
    } else {
        either(regex_group_text(RETURN_CODE@, text, 1), regex_group_text(RETURN_CODE@, text, 2))
    }
}

/// The text of the exit status in `text`, if it holds one.
pub fn find_status(text: &str) -> (found: Option<String>)
    ensures
        opt_str(found) == status_text(text@),
        opt_str(found) == either(
            regex_group_text(RETURN_CODE@, text@, 1),
            regex_group_text(RETURN_CODE@, text@, 2),
        ),
{
    match regex_group(RETURN_CODE, text, 1) {
        Some(g) => Some(g),
        None => regex_group(RETURN_CODE, text, 2),
    }
}

/// The number of the line from which `cmd` has `sed` print: the start of a range, or else a single
/// line. On ASCII text this is spelled out.
pub open spec fn address_text(cmd: Seq<char>) -> Option<Seq<char>> {
    if is_ascii_chars(cmd) {
        either(range_start(cmd), single_line(cmd))
    } else {
        either(regex_group_text(SED_RANGE@, cmd, 1), regex_group_text(SED_ONE@, cmd, 1))
    }
}

/// The text of the first line number that `cmd` has `sed` print, if there is one.
pub fn find_address(cmd: &str) -> (found: Option<String>)
    ensures
        opt_str(found) == address_text(cmd@),
        opt_str(found) == either(regex_group_text(SED_RANGE@, cmd@, 1), regex_group_text(SED_ONE@, cmd@, 1)),
        found matches Some(g) ==> number_text(g@),
{
    match regex_group(SED_RANGE, cmd, 1) {
        Some(g) => Some(g),
        None => regex_group(SED_ONE, cmd, 1),
    }
}

} // verus!
