//! Laws of words, joined texts and names of files: how what is found in a text follows from its
//! parts.
use vstd::prelude::*;

use crate::command::{file_of, first_named, unquoted};
use crate::grep::{base_name, path, trim_colons};
use crate::laws::commands::law_pieces_lack_the_separator;
use crate::laws::strings::{no_space, unbroken};
use crate::number::{all_digits, digits_value, integer_value};
use crate::pattern::{ascii_digit, ascii_letter, ends_in_extension, extension_at, has_suffix};
use crate::pystr::{line_break, line_end, space, split_ws, splitlines};
use crate::text::{first_where, is_char, join, lemma_first_where, lemma_first_where_unique, split_on, starts_with};

verus! {

/// Joining follows from the parts: nothing for no part, the part itself for one, and for two lists
/// the one, the separator and the other.
pub proof fn law_join_of_parts(a: Seq<Seq<char>>, b: Seq<Seq<char>>, part: Seq<char>, sep: Seq<char>)
    ensures
        join(Seq::<Seq<char>>::empty(), sep) == Seq::<char>::empty(),
        join(seq![part], sep) == part,
        a.len() > 0 && b.len() > 0 ==> join(a + b, sep) == join(a, sep) + sep + join(b, sep),
    decreases a.len(),
{
    if a.len() > 0 && b.len() > 0 {
        let rest = (a + b).drop_first();
        assert(rest =~= a.drop_first() + b);
        if a.len() == 1 {
            assert(rest =~= b);
        } else {
            law_join_of_parts(a.drop_first(), b, part, sep);
        }
        assert(join(a + b, sep) =~= join(a, sep) + sep + join(b, sep));
    }
}

/// Splitting follows from the parts: a separator divides a text, and a text without one is whole.
pub proof fn law_split_of_parts(a: Seq<char>, c: char, b: Seq<char>)
    ensures
        split_on(a + seq![c] + b, c) == split_on(a, c) + split_on(b, c),
        !a.contains(c) ==> split_on(a, c) == seq![a],
    decreases a.len(),
{
    let s = a + seq![c] + b;
    let k = first_where(a, is_char(c));
    lemma_first_where(a, is_char(c));
    assert forall|i: int| 0 <= i < k implies !is_char(c)(#[trigger] s[i]) by {
        assert(s[i] == a[i]);
    }
    if k < a.len() {
        assert(s[k] == a[k]);
        assert(a.contains(a[k]));
        lemma_first_where_unique(s, is_char(c), k);
        law_split_of_parts(a.skip(k + 1), c, b);
        assert(s.skip(k + 1) =~= a.skip(k + 1) + seq![c] + b);
        assert(s.take(k) =~= a.take(k));
        assert(split_on(s, c) =~= split_on(a, c) + split_on(b, c));
    } else {
        assert(s[k] == c);
        lemma_first_where_unique(s, is_char(c), k);
        assert(s.take(k) =~= a);
        assert(s.skip(k + 1) =~= b);
    }
}

/// What is stripped from the front of a text with whitespace before it.
proof fn lemma_strip_start_space(s: Seq<char>)
    requires
        s.len() > 0,
        space(s[0]),
    ensures
        split_ws(s) == split_ws(s.drop_first()),
{
}

/// Splitting at whitespace follows from the parts: whitespace divides a text, and a word without
/// whitespace is whole.
pub proof fn law_words_of_parts(a: Seq<char>, c: char, b: Seq<char>)
    requires
        space(c),
    ensures
        split_ws(a + seq![c] + b) == split_ws(a) + split_ws(b),
        no_space(a) && a.len() > 0 ==> split_ws(a) == seq![a],
        a.len() == 0 ==> split_ws(a).len() == 0,
    decreases a.len(),
{
    let s = a + seq![c] + b;
    if a.len() == 0 {
        assert(s =~= seq![c] + b);
        assert(s.drop_first() =~= b);
        lemma_strip_start_space(s);
        assert(split_ws(a) + split_ws(b) =~= split_ws(b));
    } else if space(a[0]) {
        assert(s[0] == a[0]);
        assert(s.drop_first() =~= a.drop_first() + seq![c] + b);
        lemma_strip_start_space(s);
        lemma_strip_start_space(a);
        law_words_of_parts(a.drop_first(), c, b);
    } else {
        let p = |x: char| space(x);
        let k = first_where(a, p);
        lemma_first_where(a, p);
        assert(s[0] == a[0]);
        assert forall|i: int| 0 <= i < k implies !p(#[trigger] s[i]) by {
            assert(s[i] == a[i]);
        }
        if k < a.len() {
            assert(s[k] == a[k]);
        }
        assert(p(s[k]));
        lemma_first_where_unique(s, p, k);
        assert(k > 0);
        assert(s.skip(k) =~= a.skip(k) + seq![c] + b);
        assert(s.take(k) =~= a.take(k));
        law_words_of_parts(a.skip(k), c, b);
        assert(split_ws(s) =~= seq![a.take(k)] + (split_ws(a.skip(k)) + split_ws(b)));
        assert(split_ws(s) =~= split_ws(a) + split_ws(b));
        if no_space(a) {
            if k < a.len() {
                assert(!space(a[k]));
            }
            assert(a.take(k) =~= a);
            assert(a.skip(k) =~= seq![]);
            assert(split_ws(a) =~= seq![a]);
        }
    }
}

/// A base name is what stands behind the last slash.
pub proof fn law_base_name_of_parts(dir: Seq<char>, name: Seq<char>)
    ensures
        base_name(dir + seq!['/'] + name) == base_name(name),
        !name.contains('/') ==> base_name(name) == name,
{
    law_split_of_parts(dir, '/', name);
    law_split_of_parts(name, '/', name);
    law_pieces_lack_the_separator(name, '/');
    let all = split_on(dir, '/') + split_on(name, '/');
    assert(all.last() == split_on(name, '/').last());
}

/// A token with a slash is a path.
pub proof fn law_slash_makes_a_path(dir: Seq<char>, name: Seq<char>)
    ensures
        path(dir + seq!['/'] + name),
{
    let tok = dir + seq!['/'] + name;
    assert(tok[dir.len() as int] == '/');
}

/// A file extension: one to five letters and digits, of which the first is a letter.
pub open spec fn extension(ext: Seq<char>) -> bool {
    &&& 1 <= ext.len() <= 5
    &&& ascii_letter(ext[0])
    &&& forall|i: int| 0 <= i < ext.len() ==> ascii_letter(#[trigger] ext[i]) || ascii_digit(ext[i])
}

/// A token without a slash is a path exactly if an extension stands behind its last dot.
pub proof fn law_extension_makes_a_path(stem: Seq<char>, ext: Seq<char>)
    requires
        !stem.contains('/'),
        !ext.contains('/'),
        !ext.contains('.'),
    ensures
        path(stem + seq!['.'] + ext) <==> extension(ext),
        !path(ext),
{
    let tok = stem + seq!['.'] + ext;
    let i = stem.len() as int;
    assert(!tok.contains('/')) by {
        if tok.contains('/') {
            let k = tok.index_of('/');
            if k < i {
                assert(stem[k] == '/');
            } else {
                assert(ext[k - i - 1] == '/');
            }
        }
    }
    assert(tok[i] == '.');
    assert forall|k: int| 0 <= k < ext.len() implies tok[i + 1 + k] == #[trigger] ext[k] by {}
    if extension(ext) {
        assert forall|k: int| i + 2 <= k < tok.len() implies ascii_letter(#[trigger] tok[k]) || ascii_digit(tok[k]) by {
            assert(tok[k] == ext[k - i - 1]);
        }
        assert(tok[i + 1] == ext[0]);
        assert(extension_at(tok, i));
    }
    if ends_in_extension(tok) {
        let j = choose|j: int| #[trigger] extension_at(tok, j);
        if j < i {
            assert(tok[i] == '.');
            if j + 1 == i {
                assert(ascii_letter(tok[j + 1]));
            }
            assert(false);
        } else if j > i {
            assert(ext[j - i - 1] == '.');
            assert(false);
        }
        assert forall|k: int| 0 <= k < ext.len() implies ascii_letter(#[trigger] ext[k]) || ascii_digit(ext[k]) by {
            assert(tok[i + 1 + k] == ext[k]);
        }
        assert(tok[i + 1] == ext[0]);
    }
    if ends_in_extension(ext) {
        let j = choose|j: int| #[trigger] extension_at(ext, j);
        assert(ext[j] == '.');
    }
}

/// Trimming takes the colons at the end and nothing else.
pub proof fn law_trim_takes_the_colons(word: Seq<char>, n: nat)
    requires
        word.len() > 0 ==> word.last() != ':',
    ensures
        trim_colons(word + Seq::new(n, |i: int| ':')) == word,
    decreases n,
{
    let s = word + Seq::new(n, |i: int| ':');
    if n > 0 {
        let m = (n - 1) as nat;
        law_trim_takes_the_colons(word, m);
        assert(s.drop_last() =~= word + Seq::new(m, |i: int| ':'));
    } else {
        assert(s =~= word);
    }
}

/// The character divides words of a command: whitespace or a quote.
pub open spec fn divides(c: char) -> bool {
    space(c) || c == '\'' || c == '"'
}

/// The first of two names, or else the second.
pub open spec fn first_of(a: Option<Seq<char>>, b: Option<Seq<char>>) -> Option<Seq<char>> {
    match a {
        Some(name) => Some(name),
        None => b,
    }
}

/// The first name among two lists of words.
proof fn lemma_first_named_concat(a: Seq<Seq<char>>, b: Seq<Seq<char>>)
    ensures
        first_named(a + b) == first_of(first_named(a), first_named(b)),
    decreases a.len(),
{
    if a.len() == 0 {
        assert(a + b =~= b);
    } else {
        lemma_first_named_concat(a.drop_first(), b);
        assert((a + b).drop_first() =~= a.drop_first() + b);
    }
}

/// The file of a command follows from its parts: of two parts that are divided the first that names
/// a file, and of a single word its base name, if that has a suffix.
pub proof fn law_file_of_parts(a: Seq<char>, c: char, b: Seq<char>)
    requires
        divides(c),
    ensures
        file_of(a + seq![c] + b) == first_of(file_of(a), file_of(b)),
        a.len() == 0 ==> file_of(a) is None,
        (forall|i: int| 0 <= i < a.len() ==> !divides(#[trigger] a[i])) && a.len() > 0 ==> file_of(a) == if has_suffix(
            base_name(a),
        ) {
            Some(base_name(a))
        } else {
            None
        },
{
    let d = if c == '\'' || c == '"' {
        ' '
    } else {
        c
    };
    let whole = unquoted(a + seq![c] + b);
    assert(whole =~= unquoted(a) + seq![d] + unquoted(b));
    law_words_of_parts(unquoted(a), d, unquoted(b));
    lemma_first_named_concat(split_ws(unquoted(a)), split_ws(unquoted(b)));
    if forall|i: int| 0 <= i < a.len() ==> !divides(#[trigger] a[i]) {
        assert(unquoted(a) =~= a) by {
            assert forall|i: int| 0 <= i < a.len() implies unquoted(a)[i] == a[i] by {
                assert(!divides(a[i]));
            }
        }
        assert forall|i: int| 0 <= i < a.len() implies !space(#[trigger] a[i]) by {
            assert(!divides(a[i]));
        }
        if a.len() > 0 {
            assert(split_ws(a) == seq![a]);
            assert(seq![a].drop_first() =~= seq![]);
            assert(first_named(seq![a].drop_first()) is None);
        }
    }
}

/// A text denotes an integer exactly if it is digits, one at least, with a sign before them or
/// without; a minus negates it, and a digit behind it makes it ten times as large and adds to it.
pub proof fn law_integers_are_signed_digits(digits: Seq<char>, d: char)
    requires
        digits.len() > 0,
    ensures
        all_digits(digits) ==> integer_value(digits) == Some(digits_value(digits)),
        all_digits(digits) ==> integer_value(seq!['+'] + digits) == Some(digits_value(digits)),
        all_digits(digits) ==> integer_value(seq!['-'] + digits) == Some(-digits_value(digits)),
        !all_digits(digits) && digits[0] != '-' && digits[0] != '+' ==> {
            &&& integer_value(digits) is None
            &&& integer_value(seq!['+'] + digits) is None
            &&& integer_value(seq!['-'] + digits) is None
        },
        integer_value(Seq::<char>::empty()) is None,
        digits_value(seq![d]) == d as int - '0' as int,
        digits_value(digits.push(d)) == digits_value(digits) * 10 + digits_value(seq![d]),
{
    let plus = seq!['+'] + digits;
    let minus = seq!['-'] + digits;
    assert(plus.drop_first() =~= digits);
    assert(minus.drop_first() =~= digits);
    if all_digits(digits) {
        assert(ascii_digit(digits[0]));
    }
    assert(seq![d].drop_last() =~= seq![]);
    assert(digits_value(seq![d].drop_last()) == 0);
    assert(digits.push(d).drop_last() =~= digits);
}

/// A line ends at ten characters: a line feed, a carriage return, a vertical tab, a form feed, three
/// separators, and three characters beyond ASCII.
pub proof fn law_ten_characters_end_a_line(c: char)
    ensures
        line_break(c) <==> {
            let n = c as int;
            10 <= n <= 13 || 28 <= n <= 30 || n == 0x85 || n == 0x2028 || n == 0x2029
        },
        line_break(c) ==> space(c),
{
}

/// The characters that count as whitespace.
pub proof fn law_characters_of_whitespace(c: char)
    ensures
        space(c) <==> {
            let n = c as int;
            9 <= n <= 13 || 28 <= n <= 32 || n == 0x85 || n == 0xa0 || n == 0x1680 || 0x2000 <= n <= 0x200a || n
                == 0x2028 || n == 0x2029 || n == 0x202f || n == 0x205f || n == 0x3000
        },
{
}

/// The lines of a text follow from its parts: an unbroken text is one line, unless it is empty, and a
/// break ends a line, which a carriage return with a line feed behind it does as one.
pub proof fn law_lines_of_parts(a: Seq<char>, c: char, b: Seq<char>)
    requires
        unbroken(a),
        line_break(c),
    ensures
        a.len() > 0 ==> splitlines(a) == seq![a],
        a.len() == 0 ==> splitlines(a).len() == 0,
        !(c == '\r' && b.len() > 0 && b[0] == '\n') ==> splitlines(a + seq![c] + b) == seq![a] + splitlines(b),
        splitlines(a + seq!['\r', '\n'] + b) == seq![a] + splitlines(b),
{
    let p = |x: char| line_break(x);
    let k = a.len() as int;
    if k > 0 {
        assert forall|i: int| 0 <= i < k implies !p(#[trigger] a[i]) by {
            assert(!line_break(a[i]));
        }
        lemma_first_where_unique(a, p, k);
        assert(a.take(k) =~= a);
        assert(a.skip(k) =~= seq![]);
        assert(splitlines(a.skip(k)) =~= seq![]);
        assert(splitlines(a) =~= seq![a]);
    }
    let s = a + seq![c] + b;
    lemma_break_at(s, a, seq![c] + b);
    if !(c == '\r' && b.len() > 0 && b[0] == '\n') {
        if b.len() > 0 {
            assert(s[k + 1] == b[0]);
        }
        assert(s.skip(k + 1) =~= b);
    }
    let t = a + seq!['\r', '\n'] + b;
    lemma_break_at(t, a, seq!['\r', '\n'] + b);
    assert(t[k + 1] == '\n');
    assert(t.skip(k + 2) =~= b);
}

/// Where the first line of a text ends.
proof fn lemma_break_at(s: Seq<char>, a: Seq<char>, rest: Seq<char>)
    requires
        s =~= a + rest,
        unbroken(a),
        rest.len() > 0,
        line_break(rest[0]),
    ensures
        line_end(s) == a.len(),
        s.take(a.len() as int) == a,
        s[a.len() as int] == rest[0],
{
    let p = |x: char| line_break(x);
    let k = a.len() as int;
    assert forall|i: int| 0 <= i < k implies !p(#[trigger] s[i]) by {
        assert(!line_break(a[i]));
        assert(s[i] == a[i]);
    }
    assert(s[k] == rest[0]);
    lemma_first_where_unique(s, p, k);
    assert(s.take(k) =~= a);
}

/// A text starts with another exactly if something makes it up behind that.
pub proof fn law_start_of_parts(start: Seq<char>, rest: Seq<char>, s: Seq<char>)
    ensures
        starts_with(start + rest, start),
        starts_with(s, start) ==> s == start + s.skip(start.len() as int),
{
    assert((start + rest).take(start.len() as int) =~= start);
    if starts_with(s, start) {
        assert(s =~= s.take(start.len() as int) + s.skip(start.len() as int));
    }
}

} // verus!
