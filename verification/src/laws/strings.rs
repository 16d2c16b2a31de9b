//! Laws of lines, whitespace and prefixes.
use vstd::prelude::*;
use vstd::utf8::encode_utf8;

use crate::pystr::{break_len, lemma_strip_bounds, lemma_strip_ends, lemma_strip_start, line_break, line_end, prefix, space, split_ws, splitlines, strip, strip_end, strip_start};
use crate::text::{first_where, lemma_chars_fit_bytes, lemma_first_where, lemma_first_where_unique, starts_with};

verus! {

/// No line ends within `s`.
pub open spec fn unbroken(s: Seq<char>) -> bool {
    forall|i: int| 0 <= i < s.len() ==> !line_break(#[trigger] s[i])
}

/// `lines` and the breaks between them make up `s`: each line is unbroken and starts where the
/// break before it ends, a break follows every line but perhaps the last, and the last line without
/// a break is not empty.
pub open spec fn tiled(s: Seq<char>, lines: Seq<Seq<char>>) -> bool
    decreases lines.len(),
{
    if lines.len() == 0 {
        s.len() == 0
    } else {
        let line = lines[0];
        let rest = s.skip(line.len() as int);
        &&& starts_with(s, line)
        &&& unbroken(line)
        &&& if rest.len() == 0 {
            lines.len() == 1 && line.len() > 0
        } else {
            line_break(rest[0]) && tiled(rest.skip(break_len(rest, 0)), lines.drop_first())
        }
    }
}

/// The lines of a text and the breaks between them make up the text, with nothing lost, added or
/// out of order.
pub proof fn law_lines_tile_the_text(s: Seq<char>)
    ensures
        tiled(s, splitlines(s)),
    decreases s.len(),
{
    if s.len() > 0 {
        lemma_first_where(s, |c: char| line_break(c));
        let k = line_end(s);
        let n = break_len(s, k);
        let lines = splitlines(s);
        let rest = s.skip(k);
        law_lines_tile_the_text(s.skip(k + n));
        assert(lines[0] == s.take(k));
        assert(lines.drop_first() =~= splitlines(s.skip(k + n)));
        if k < s.len() {
            assert(rest[0] == s[k]);
            assert(break_len(rest, 0) == n);
            assert(rest.skip(n) =~= s.skip(k + n));
        } else {
            assert(s.skip(k + n).len() == 0);
        }
    }
}

/// Only the lines of a text tile it.
pub proof fn law_only_the_lines_tile_the_text(s: Seq<char>, lines: Seq<Seq<char>>)
    requires
        tiled(s, lines),
    ensures
        lines == splitlines(s),
    decreases lines.len(),
{
    if lines.len() == 0 {
        assert(lines =~= splitlines(s));
    } else {
        let line = lines[0];
        let k = line.len() as int;
        let rest = s.skip(k);
        assert(s.len() > 0);
        assert forall|i: int| 0 <= i < k implies !line_break(#[trigger] s[i]) by {
            assert(s.take(k)[i] == s[i]);
            assert(line[i] == s[i]);
        }
        if rest.len() > 0 {
            assert(rest[0] == s[k]);
        }
        lemma_first_where_unique(s, |c: char| line_break(c), k);
        assert(line_end(s) == k);
        if rest.len() == 0 {
            assert(s.take(k) =~= s);
            assert(splitlines(s.skip(k)) =~= seq![]);
            assert(lines =~= seq![line]);
        } else {
            law_only_the_lines_tile_the_text(rest.skip(break_len(rest, 0)), lines.drop_first());
            assert(break_len(rest, 0) == break_len(s, k));
            assert(rest.skip(break_len(rest, 0)) =~= s.skip(k + break_len(s, k)));
            assert(lines =~= seq![line] + lines.drop_first());
        }
    }
}

/// No line of a text has a break in it, and only the empty text has no lines.
pub proof fn law_lines_are_unbroken(s: Seq<char>)
    ensures
        forall|i: int| 0 <= i < splitlines(s).len() ==> unbroken(#[trigger] splitlines(s)[i]),
        splitlines(s).len() == 0 <==> s.len() == 0,
        splitlines(s).len() <= s.len(),
    decreases s.len(),
{
    if s.len() > 0 {
        lemma_first_where(s, |c: char| line_break(c));
        let k = line_end(s);
        let n = break_len(s, k);
        let lines = splitlines(s);
        law_lines_are_unbroken(s.skip(k + n));
        assert forall|i: int| 0 <= i < lines.len() implies unbroken(#[trigger] lines[i]) by {
            if i == 0 {
                assert(lines[0] == s.take(k));
            } else {
                assert(lines[i] == splitlines(s.skip(k + n))[i - 1]);
            }
        }
    }
}

/// Every character is whitespace.
pub open spec fn all_space(s: Seq<char>) -> bool {
    forall|i: int| 0 <= i < s.len() ==> space(#[trigger] s[i])
}

/// Stripping takes whitespace from both ends and nothing else.
pub proof fn law_strip_removes_only_whitespace(s: Seq<char>) -> (cut: (int, int))
    ensures
        0 <= cut.0 <= cut.1 <= s.len(),
        strip(s) == s.subrange(cut.0, cut.1),
        all_space(s.take(cut.0)),
        all_space(s.skip(cut.1)),
        strip(s).len() > 0 ==> !space(strip(s)[0]) && !space(strip(s).last()),
{
    lemma_strip_ends(s);
    lemma_strip_start(s);
    let p = |c: char| !space(c);
    lemma_first_where(s, p);
    let a = first_where(s, p);
    let t = s.skip(a);
    lemma_strip_bounds(t);
    let n = strip_end(t).len() as int;
    let b = a + n;
    assert(t.take(n) =~= s.subrange(a, b));
    assert forall|i: int| 0 <= i < a implies space(#[trigger] s.take(a)[i]) by {
        assert(!p(s[i]));
    }
    assert forall|i: int| 0 <= i < s.skip(b).len() implies space(#[trigger] s.skip(b)[i]) by {
        assert(t[n + i] == s[b + i]);
    }
    (a, b)
}

/// Stripping what was stripped changes nothing.
pub proof fn law_strip_is_idempotent(s: Seq<char>)
    ensures
        strip(strip(s)) == strip(s),
{
    lemma_strip_ends(s);
}

/// The parts of a list, one after the other.
pub open spec fn concat(parts: Seq<Seq<char>>) -> Seq<char>
    decreases parts.len(),
{
    if parts.len() == 0 {
        seq![]
    } else {
        parts[0] + concat(parts.drop_first())
    }
}

/// No character is whitespace.
pub open spec fn no_space(s: Seq<char>) -> bool {
    forall|i: int| 0 <= i < s.len() ==> !space(#[trigger] s[i])
}

/// The characters of `s` that are not whitespace.
pub open spec fn without_space(s: Seq<char>) -> Seq<char> {
    s.filter(|c: char| !space(c))
}

/// Filtering distributes over concatenation.
pub proof fn lemma_without_space_concat(a: Seq<char>, b: Seq<char>)
    ensures
        without_space(a + b) == without_space(a) + without_space(b),
{
    Seq::filter_distributes_over_add(a, b, |c: char| !space(c));
}

/// Filtering leaves nothing of whitespace and all of anything without it.
pub proof fn lemma_without_space_pure(s: Seq<char>)
    ensures
        all_space(s) ==> without_space(s).len() == 0,
        no_space(s) ==> without_space(s) == s,
    decreases s.len(),
{
    reveal(Seq::filter);
    if s.len() > 0 {
        lemma_without_space_pure(s.drop_last());
        if all_space(s) {
            assert forall|i: int| 0 <= i < s.drop_last().len() implies space(#[trigger] s.drop_last()[i]) by {
                assert(s[i] == s.drop_last()[i]);
            }
            assert(space(s[s.len() - 1]));
        }
        if no_space(s) {
            assert forall|i: int| 0 <= i < s.drop_last().len() implies !space(#[trigger] s.drop_last()[i]) by {
                assert(s[i] == s.drop_last()[i]);
            }
            assert(!space(s[s.len() - 1]));
            assert(s.drop_last().push(s.last()) =~= s);
        }
    }
}

/// Splitting at whitespace keeps every other character, in order: the parts are not empty, hold no
/// whitespace, and together are the text without its whitespace.
pub proof fn law_split_keeps_what_is_not_whitespace(s: Seq<char>)
    ensures
        forall|i: int|
            0 <= i < split_ws(s).len() ==> (#[trigger] split_ws(s)[i]).len() > 0 && no_space(split_ws(s)[i]),
        concat(split_ws(s)) == without_space(s),
    decreases s.len(),
{
    lemma_strip_start(s);
    let p = |c: char| !space(c);
    lemma_first_where(s, p);
    let a = first_where(s, p);
    let t = strip_start(s);
    assert(s =~= s.take(a) + t);
    lemma_without_space_concat(s.take(a), t);
    assert(all_space(s.take(a))) by {
        assert forall|i: int| 0 <= i < a implies space(#[trigger] s.take(a)[i]) by {
            assert(!p(s[i]));
        }
    }
    lemma_without_space_pure(s.take(a));
    if t.len() == 0 {
        reveal(Seq::filter);
        assert(concat(split_ws(s)) =~= without_space(s));
    } else {
        lemma_first_where(t, |c: char| space(c));
        let k = first_where(t, |c: char| space(c));
        let part = t.take(k);
        let rest = t.skip(k);
        law_split_keeps_what_is_not_whitespace(rest);
        assert(no_space(part)) by {
            assert forall|i: int| 0 <= i < k implies !space(#[trigger] part[i]) by {
                assert(part[i] == t[i]);
            }
        }
        lemma_without_space_pure(part);
        assert(t =~= part + rest);
        lemma_without_space_concat(part, rest);
        let parts = split_ws(s);
        assert(parts =~= seq![part] + split_ws(rest));
        assert(parts.drop_first() =~= split_ws(rest));
        assert(concat(parts) =~= without_space(s));
        assert forall|i: int| 0 <= i < parts.len() implies (#[trigger] parts[i]).len() > 0 && no_space(parts[i]) by {
            if i > 0 {
                assert(parts[i] == split_ws(rest)[i - 1]);
            }
        }
    }
}

/// A prefix starts its text, has the asked length or that of the text, and a prefix of full length
/// is the text.
pub proof fn law_prefix_and_length_agree(s: Seq<char>, n: nat)
    ensures
        starts_with(s, prefix(s, n as int)),
        prefix(s, n as int).len() == if n < s.len() {
            n
        } else {
            s.len()
        },
        prefix(s, s.len() as int) == s,
{
    assert(s.take(s.len() as int) =~= s);
}

/// The length in characters never exceeds the length in bytes.
pub proof fn law_length_never_exceeds_bytes(s: Seq<char>)
    ensures
        s.len() <= encode_utf8(s).len(),
{
    lemma_chars_fit_bytes(s);
}

} // verus!
