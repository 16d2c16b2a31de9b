//! The law of full coverage: whatever an agent has seen, its chunks hold every line of it that has
//! content, once and in order.
use vstd::prelude::*;

use crate::chunk::{ChunkModel, DEFAULT_WIN};
use crate::chunking::{all_stamped, atom_chunks, bare_chunks, chunks_through, first_hit, group_chunks, hit_chunk, lemma_first_hit, lf, line_texts, no_atoms, numbered_content, observation_chunks, or_raw, read_chunks, search_chunks, text_chunks, window_len, AtomModel};
use crate::command::{exit_status, kind_of, KindModel};
use crate::laws::strings::{all_space, concat, law_lines_are_unbroken, lemma_without_space_concat, lemma_without_space_pure, unbroken, without_space};
use crate::pystr::{break_len, has_content, line_break, line_end, space, splitlines};
use crate::text::{first_where, is_char, join, lemma_first_where, lemma_first_where_unique, split_on};

verus! {

/// The lines of the texts of chunks, one chunk after the other.
pub open spec fn chunk_lines(list: Seq<ChunkModel>) -> Seq<Seq<char>>
    decreases list.len(),
{
    if list.len() == 0 {
        seq![]
    } else {
        split_on(list[0].text, '\n') + chunk_lines(list.drop_first())
    }
}

/// The lines that have content.
pub open spec fn content_lines(lines: Seq<Seq<char>>) -> Seq<Seq<char>> {
    lines.filter(|line: Seq<char>| has_content(line))
}

/// No line has a line feed in it.
pub open spec fn no_feeds(lines: Seq<Seq<char>>) -> bool {
    forall|i: int, j: int| 0 <= i < lines.len() && 0 <= j < lines[i].len() ==> #[trigger] lines[i][j] != '\n'
}

/// The lines of lists of chunks are those of the one and then those of the other.
pub proof fn lemma_chunk_lines_concat(a: Seq<ChunkModel>, b: Seq<ChunkModel>)
    ensures
        chunk_lines(a + b) == chunk_lines(a) + chunk_lines(b),
    decreases a.len(),
{
    if a.len() == 0 {
        assert(a + b =~= b);
        assert(chunk_lines(a) + chunk_lines(b) =~= chunk_lines(b));
    } else {
        lemma_chunk_lines_concat(a.drop_first(), b);
        assert((a + b).drop_first() =~= a.drop_first() + b);
        assert(chunk_lines(a + b) =~= chunk_lines(a) + chunk_lines(b));
    }
}

/// The lines of one chunk.
proof fn lemma_chunk_lines_one(c: ChunkModel)
    ensures
        chunk_lines(seq![c]) == split_on(c.text, '\n'),
{
    assert(seq![c].drop_first() =~= seq![]);
    assert(chunk_lines(seq![c].drop_first()) =~= seq![]);
    assert(chunk_lines(seq![c]) =~= split_on(c.text, '\n'));
}

/// The lines with content of two lists are those of the one and then those of the other.
pub proof fn lemma_content_lines_concat(a: Seq<Seq<char>>, b: Seq<Seq<char>>)
    ensures
        content_lines(a + b) == content_lines(a) + content_lines(b),
{
    Seq::filter_distributes_over_add(a, b, |line: Seq<char>| has_content(line));
}

/// Lines without content leave nothing.
pub proof fn lemma_content_lines_none(lines: Seq<Seq<char>>)
    requires
        forall|i: int| 0 <= i < lines.len() ==> !has_content(#[trigger] lines[i]),
    ensures
        content_lines(lines) == Seq::<Seq<char>>::empty(),
    decreases lines.len(),
{
    reveal(Seq::filter);
    if lines.len() > 0 {
        assert forall|i: int| 0 <= i < lines.drop_last().len() implies !has_content(#[trigger] lines.drop_last()[i]) by {
            assert(lines.drop_last()[i] == lines[i]);
        }
        lemma_content_lines_none(lines.drop_last());
        assert(!has_content(lines[lines.len() - 1]));
    }
}

/// Where nothing is left, no line had content.
pub proof fn lemma_content_lines_empty(lines: Seq<Seq<char>>)
    requires
        content_lines(lines).len() == 0,
    ensures
        forall|i: int| 0 <= i < lines.len() ==> !has_content(#[trigger] lines[i]),
    decreases lines.len(),
{
    reveal(Seq::filter);
    if lines.len() > 0 {
        lemma_content_lines_empty(lines.drop_last());
        assert forall|i: int| 0 <= i < lines.len() implies !has_content(#[trigger] lines[i]) by {
            if i < lines.len() - 1 {
                assert(lines.drop_last()[i] == lines[i]);
            }
        }
    }
}

/// Splitting joined lines gives the lines back.
pub proof fn lemma_split_join(lines: Seq<Seq<char>>)
    requires
        lines.len() > 0,
        no_feeds(lines),
    ensures
        split_on(join(lines, lf()), '\n') == lines,
    decreases lines.len(),
{
    let text = join(lines, lf());
    let k = lines[0].len() as int;
    assert forall|i: int| 0 <= i < k implies !is_char('\n')(#[trigger] text[i]) by {
        assert(text[i] == lines[0][i]);
    }
    if lines.len() == 1 {
        lemma_first_where_unique(text, is_char('\n'), k);
        assert(split_on(text, '\n') =~= lines);
    } else {
        let rest = lines.drop_first();
        assert forall|i: int, j: int| 0 <= i < rest.len() && 0 <= j < rest[i].len() implies #[trigger] rest[i][j]
            != '\n' by {
            assert(rest[i] == lines[i + 1]);
            assert(lines[i + 1][j] != '\n');
        }
        lemma_split_join(rest);
        assert(text[k] == '\n');
        lemma_first_where_unique(text, is_char('\n'), k);
        assert(text.take(k) =~= lines[0]);
        assert(text.skip(k + 1) =~= join(rest, lf()));
        assert(seq![lines[0]] + rest =~= lines);
    }
}

/// Joined lines have content if one of them has.
proof fn lemma_join_content(lines: Seq<Seq<char>>, i: int)
    requires
        0 <= i < lines.len(),
        has_content(lines[i]),
    ensures
        has_content(join(lines, lf())),
    decreases lines.len(),
{
    let text = join(lines, lf());
    if lines.len() > 1 {
        if i == 0 {
            let j = choose|j: int| 0 <= j < lines[0].len() && !space(#[trigger] lines[0][j]);
            assert(text[j] == lines[0][j]);
        } else {
            let rest = lines.drop_first();
            assert(rest[i - 1] == lines[i]);
            lemma_join_content(rest, i - 1);
            let t = join(rest, lf());
            let j = choose|j: int| 0 <= j < t.len() && !space(#[trigger] t[j]);
            assert(text[lines[0].len() + 1 + j] == t[j]);
        }
    }
}

/// The pieces of a text without content have none.
proof fn lemma_split_without_content(s: Seq<char>)
    requires
        !has_content(s),
    ensures
        content_lines(split_on(s, '\n')) == Seq::<Seq<char>>::empty(),
    decreases s.len(),
{
    let k = first_where(s, is_char('\n'));
    lemma_first_where(s, is_char('\n'));
    if k >= s.len() {
        lemma_content_lines_none(seq![s]);
    } else {
        let first = s.take(k);
        let rest = s.skip(k + 1);
        assert(!has_content(first)) by {
            if has_content(first) {
                let j = choose|j: int| 0 <= j < first.len() && !space(#[trigger] first[j]);
                assert(s[j] == first[j]);
            }
        }
        assert(!has_content(rest)) by {
            if has_content(rest) {
                let j = choose|j: int| 0 <= j < rest.len() && !space(#[trigger] rest[j]);
                assert(s[k + 1 + j] == rest[j]);
            }
        }
        lemma_split_without_content(rest);
        lemma_content_lines_none(seq![first]);
        lemma_content_lines_concat(seq![first], split_on(rest, '\n'));
        assert(content_lines(split_on(s, '\n')) =~= Seq::<Seq<char>>::empty());
    }
}

/// The content of a text is on its first line or after that.
proof fn lemma_content_first_line(s: Seq<char>)
    requires
        s.len() > 0,
    ensures
        has_content(s) <==> has_content(s.take(line_end(s))) || has_content(
            s.skip(line_end(s) + break_len(s, line_end(s))),
        ),
{
    lemma_first_where(s, |c: char| line_break(c));
    let k = line_end(s);
    let n = break_len(s, k);
    let first = s.take(k);
    let rest = s.skip(k + n);
    if has_content(first) {
        let j = choose|j: int| 0 <= j < first.len() && !space(#[trigger] first[j]);
        assert(s[j] == first[j]);
    }
    if has_content(rest) {
        let j = choose|j: int| 0 <= j < rest.len() && !space(#[trigger] rest[j]);
        assert(s[k + n + j] == rest[j]);
    }
    if has_content(s) {
        let j = choose|j: int| 0 <= j < s.len() && !space(#[trigger] s[j]);
        if j < k {
            assert(first[j] == s[j]);
        } else if j < k + n {
            assert(line_break(s[j]));
        } else {
            assert(rest[j - k - n] == s[j]);
        }
    }
}

/// A text has content if and only if one of its lines has: a line break is whitespace.
pub proof fn law_content_is_on_some_line(s: Seq<char>)
    ensures
        has_content(s) <==> content_lines(splitlines(s)).len() > 0,
    decreases s.len(),
{
    if s.len() == 0 {
        lemma_content_lines_none(splitlines(s));
    } else {
        lemma_first_where(s, |c: char| line_break(c));
        let k = line_end(s);
        let first = s.take(k);
        let rest = s.skip(k + break_len(s, k));
        law_content_is_on_some_line(rest);
        lemma_content_first_line(s);
        lemma_content_lines_concat(seq![first], splitlines(rest));
        if has_content(first) {
            lemma_content_lines_some(first);
        } else {
            lemma_content_lines_none(seq![first]);
        }
    }
}

/// The lines of a text have no line feed in them.
pub proof fn lemma_lines_have_no_feeds(s: Seq<char>)
    ensures
        no_feeds(splitlines(s)),
{
    law_lines_are_unbroken(s);
    let lines = splitlines(s);
    assert forall|i: int, j: int| 0 <= i < lines.len() && 0 <= j < lines[i].len() implies #[trigger] lines[i][j]
        != '\n' by {
        assert(unbroken(lines[i]));
    }
}

/// Parts of lines without line feeds have none either.
pub proof fn lemma_no_feeds_part(lines: Seq<Seq<char>>, from: int, to: int)
    requires
        no_feeds(lines),
        0 <= from <= to <= lines.len(),
    ensures
        no_feeds(lines.subrange(from, to)),
{
    let part = lines.subrange(from, to);
    assert forall|i: int, j: int| 0 <= i < part.len() && 0 <= j < part[i].len() implies #[trigger] part[i][j]
        != '\n' by {
        assert(part[i] == lines[from + i]);
        assert(lines[from + i][j] != '\n');
    }
}

/// A window and what follows it.
proof fn lemma_window(lines: Seq<Seq<char>>, n: int)
    requires
        no_feeds(lines),
        0 < n <= lines.len(),
    ensures
        no_feeds(lines.take(n)),
        no_feeds(lines.skip(n)),
        split_on(join(lines.take(n), lf()), '\n') == lines.take(n),
        content_lines(lines) == content_lines(lines.take(n)) + content_lines(lines.skip(n)),
        !has_content(join(lines.take(n), lf())) ==> content_lines(lines.take(n)) == Seq::<Seq<char>>::empty(),
{
    let seg = lines.take(n);
    let rest = lines.skip(n);
    lemma_no_feeds_part(lines, 0, n);
    lemma_no_feeds_part(lines, n, lines.len() as int);
    assert(lines.subrange(0, n) =~= seg);
    assert(lines.subrange(n, lines.len() as int) =~= rest);
    lemma_split_join(seg);
    lemma_content_lines_concat(seg, rest);
    assert(seg + rest =~= lines);
    if !has_content(join(seg, lf())) {
        assert forall|i: int| 0 <= i < seg.len() implies !has_content(#[trigger] seg[i]) by {
            if has_content(seg[i]) {
                lemma_join_content(seg, i);
            }
        }
        lemma_content_lines_none(seg);
    }
}

/// Windows of lines hold every line that has content, once and in order, and no more lines than
/// there were.
pub proof fn law_text_windows_cover(lines: Seq<Seq<char>>, win: nat, step: i64, kind: Seq<char>)
    requires
        no_feeds(lines),
    ensures
        content_lines(chunk_lines(text_chunks(lines, win, step, kind))) == content_lines(lines),
        chunk_lines(text_chunks(lines, win, step, kind)).len() <= lines.len(),
    decreases lines.len(),
{
    if lines.len() == 0 {
        assert(chunk_lines(text_chunks(lines, win, step, kind)) =~= lines);
    } else {
        let n = window_len(win, lines.len()) as int;
        lemma_window(lines, n);
        let rest = text_chunks(lines.skip(n), win, step, kind);
        law_text_windows_cover(lines.skip(n), win, step, kind);
        if has_content(join(lines.take(n), lf())) {
            let all = text_chunks(lines, win, step, kind);
            let first = seq![all[0]];
            assert(all =~= first + rest);
            lemma_chunk_lines_concat(first, rest);
            lemma_chunk_lines_one(all[0]);
            lemma_content_lines_concat(chunk_lines(first), chunk_lines(rest));
        } else {
            assert(content_lines(lines) =~= content_lines(lines.skip(n)));
        }
    }
}

/// The chunks of the output of a search hold every line that has content, once and in order, and
/// no more lines than there were.
pub proof fn law_search_covers(lines: Seq<Seq<char>>, win: nat, step: i64)
    requires
        no_feeds(lines),
    ensures
        content_lines(chunk_lines(search_chunks(lines, win, step))) == content_lines(lines),
        chunk_lines(search_chunks(lines, win, step)).len() <= lines.len(),
    decreases lines.len(),
{
    let k = first_hit(lines);
    lemma_first_hit(lines);
    if k >= lines.len() {
        law_text_windows_cover(lines, win, step, "other"@);
    } else {
        let before = lines.take(k);
        let hit = seq![lines[k]];
        let after = lines.skip(k + 1);
        let all = search_chunks(lines, win, step);
        let a = text_chunks(before, win, step, "other"@);
        let b = seq![hit_chunk(lines[k], step)];
        let c = search_chunks(after, win, step);
        lemma_no_feeds_part(lines, 0, k);
        lemma_no_feeds_part(lines, k, k + 1);
        lemma_no_feeds_part(lines, k + 1, lines.len() as int);
        assert(lines.subrange(0, k) =~= before);
        assert(lines.subrange(k, k + 1) =~= hit);
        assert(lines.subrange(k + 1, lines.len() as int) =~= after);
        law_text_windows_cover(before, win, step, "other"@);
        law_search_covers(after, win, step);
        lemma_split_join(hit);
        lemma_chunk_lines_one(b[0]);
        assert(all =~= a + b + c);
        lemma_chunk_lines_concat(a + b, c);
        lemma_chunk_lines_concat(a, b);
        lemma_content_lines_concat(chunk_lines(a) + chunk_lines(b), chunk_lines(c));
        lemma_content_lines_concat(chunk_lines(a), chunk_lines(b));
        lemma_content_lines_concat(before + hit, after);
        lemma_content_lines_concat(before, hit);
        assert(before + hit + after =~= lines);
    }
}

/// The windows of a file hold exactly its lines.
pub proof fn law_read_windows_hold_the_lines(
    lines: Seq<Seq<char>>,
    file: Option<Seq<char>>,
    base: int,
    win: nat,
    step: i64,
)
    requires
        no_feeds(lines),
    ensures
        chunk_lines(read_chunks(lines, file, base, win, step)) == lines,
    decreases lines.len(),
{
    let all = read_chunks(lines, file, base, win, step);
    if lines.len() == 0 {
        assert(chunk_lines(all) =~= lines);
    } else {
        let n = window_len(win, lines.len()) as int;
        lemma_window(lines, n);
        let rest = read_chunks(lines.skip(n), file, base + n, win, step);
        law_read_windows_hold_the_lines(lines.skip(n), file, base + n, win, step);
        assert(all =~= seq![all[0]] + rest);
        lemma_chunk_lines_concat(seq![all[0]], rest);
        lemma_chunk_lines_one(all[0]);
        assert(lines.take(n) + lines.skip(n) =~= lines);
    }
}

/// Groups of numbered lines hold exactly those lines.
pub proof fn law_groups_hold_the_lines(lines: Seq<(i64, Seq<char>)>, file: Option<Seq<char>>, size: nat, step: i64)
    requires
        no_feeds(line_texts(lines)),
    ensures
        chunk_lines(group_chunks(lines, file, size, step)) == line_texts(lines),
    decreases lines.len(),
{
    let all = group_chunks(lines, file, size, step);
    let texts = line_texts(lines);
    if lines.len() == 0 {
        assert(chunk_lines(all) =~= texts);
    } else {
        let n = window_len(size, lines.len()) as int;
        assert(line_texts(lines.take(n)) =~= texts.take(n));
        assert(line_texts(lines.skip(n)) =~= texts.skip(n));
        lemma_window(texts, n);
        let rest = group_chunks(lines.skip(n), file, size, step);
        law_groups_hold_the_lines(lines.skip(n), file, size, step);
        assert(all =~= seq![all[0]] + rest);
        lemma_chunk_lines_concat(seq![all[0]], rest);
        lemma_chunk_lines_one(all[0]);
        assert(texts.take(n) + texts.skip(n) =~= texts);
    }
}

/// The numbered lines of a file are its lines with content.
pub proof fn law_numbered_lines_are_the_content(lines: Seq<Seq<char>>, base: int)
    ensures
        line_texts(numbered_content(lines, base)) == content_lines(lines),
    decreases lines.len(),
{
    if lines.len() == 0 {
        reveal(Seq::filter);
        assert(line_texts(numbered_content(lines, base)) =~= content_lines(lines));
    } else {
        let rest = lines.drop_first();
        law_numbered_lines_are_the_content(rest, base + 1);
        lemma_content_lines_concat(seq![lines[0]], rest);
        assert(seq![lines[0]] + rest =~= lines);
        if has_content(lines[0]) {
            lemma_content_lines_some(lines[0]);
        } else {
            lemma_content_lines_none(seq![lines[0]]);
        }
        assert(line_texts(numbered_content(lines, base)) =~= content_lines(lines));
    }
}

/// A line with content is kept.
proof fn lemma_content_lines_some(line: Seq<char>)
    requires
        has_content(line),
    ensures
        content_lines(seq![line]) == seq![line],
{
    reveal(Seq::filter);
    assert(seq![line].drop_last() =~= seq![]);
    assert(content_lines(seq![line].drop_last()) =~= seq![]);
    assert(content_lines(seq![line]) =~= seq![line]);
}

/// Filtering twice is filtering once.
proof fn lemma_content_lines_twice(lines: Seq<Seq<char>>)
    ensures
        content_lines(content_lines(lines)) == content_lines(lines),
    decreases lines.len(),
{
    if lines.len() == 0 {
        reveal(Seq::filter);
        assert(content_lines(lines) =~= lines);
    } else {
        let rest = lines.drop_first();
        lemma_content_lines_twice(rest);
        lemma_content_lines_concat(seq![lines[0]], rest);
        assert(seq![lines[0]] + rest =~= lines);
        if has_content(lines[0]) {
            lemma_content_lines_some(lines[0]);
            lemma_content_lines_concat(seq![lines[0]], content_lines(rest));
        } else {
            lemma_content_lines_none(seq![lines[0]]);
            assert(content_lines(lines) =~= content_lines(rest));
        }
    }
}

/// Falling back to the whole observation loses nothing.
proof fn lemma_fallback_covers(list: Seq<ChunkModel>, obs: Seq<char>, file: Option<Seq<char>>, step: i64, kind: Seq<char>)
    requires
        content_lines(chunk_lines(list)) == content_lines(splitlines(obs)),
    ensures
        content_lines(chunk_lines(or_raw(list, obs, file, step, kind))) == content_lines(splitlines(obs)),
{
    if list.len() == 0 {
        reveal(Seq::filter);
        assert(content_lines(chunk_lines(list)).len() == 0);
        law_content_is_on_some_line(obs);
        lemma_split_without_content(obs);
        lemma_chunk_lines_one(or_raw(list, obs, file, step, kind)[0]);
        assert(content_lines(splitlines(obs)) =~= Seq::<Seq<char>>::empty());
    }
}

/// What a chunk carries of its step does not change its lines.
pub proof fn lemma_stamped_lines(list: Seq<ChunkModel>, cmd: Seq<char>, rc: Option<i64>, obs: Seq<char>)
    ensures
        chunk_lines(all_stamped(list, cmd, rc, obs)) == chunk_lines(list),
    decreases list.len(),
{
    let all = all_stamped(list, cmd, rc, obs);
    if list.len() > 0 {
        lemma_stamped_lines(list.drop_first(), cmd, rc, obs);
        assert(all.drop_first() =~= all_stamped(list.drop_first(), cmd, rc, obs));
    }
}

/// Full coverage: the chunks of an observation hold every line of it that has content, once and in
/// order, whatever the command, the window and the group size.
pub proof fn law_observation_is_covered(
    cmd: Seq<char>,
    obs: Seq<char>,
    step: i64,
    win: nat,
    read_lines: Option<usize>,
)
    ensures
        content_lines(chunk_lines(observation_chunks(cmd, obs, step, win, read_lines, None))) == content_lines(
            splitlines(obs),
        ),
{
    law_kind_is_covered(kind_of(cmd), obs, step, win, read_lines);
    lemma_stamped_lines(
        bare_chunks(kind_of(cmd), obs, step, win, read_lines, None),
        cmd,
        exit_status(obs),
        obs,
    );
}

/// Full coverage for each kind of output.
pub proof fn law_kind_is_covered(kind: KindModel, obs: Seq<char>, step: i64, win: nat, read_lines: Option<usize>)
    ensures
        content_lines(chunk_lines(bare_chunks(kind, obs, step, win, read_lines, None))) == content_lines(
            splitlines(obs),
        ),
{
    let lines = splitlines(obs);
    lemma_lines_have_no_feeds(obs);
    match kind {
        KindModel::Search => {
            law_search_covers(lines, win, step);
            lemma_fallback_covers(search_chunks(lines, win, step), obs, None, step, "other"@);
        },
        KindModel::Read { file, base } => {
            match read_lines {
                Some(size) => {
                    let content = numbered_content(lines, base as int);
                    law_numbered_lines_are_the_content(lines, base as int);
                    lemma_content_has_no_feeds(lines);
                    law_groups_hold_the_lines(content, file, size as nat, step);
                    lemma_content_lines_twice(lines);
                    lemma_fallback_covers(group_chunks(content, file, size as nat, step), obs, file, step, "read"@);
                },
                None => {
                    law_read_windows_hold_the_lines(lines, file, base as int, win, step);
                    lemma_fallback_covers(
                        read_chunks(lines, file, base as int, win, step),
                        obs,
                        file,
                        step,
                        "read"@,
                    );
                },
            }
        },
        KindModel::Other => {
            law_text_windows_cover(lines, win, step, "other"@);
            lemma_fallback_covers(text_chunks(lines, win, step, "other"@), obs, None, step, "other"@);
        },
    }
}

/// The lines of the texts of atoms, one atom after the other.
pub open spec fn atom_lines(atoms: Seq<AtomModel>) -> Seq<Seq<char>>
    decreases atoms.len(),
{
    if atoms.len() == 0 {
        seq![]
    } else {
        split_on(atoms[0].text, '\n') + atom_lines(atoms.drop_first())
    }
}

/// A segmenter has kept the lines: where its answer counts, its atoms hold every line with content
/// of the observation, once and in order.
pub open spec fn keeps_lines(
    cmd: Seq<char>,
    obs: Seq<char>,
    read_lines: Option<usize>,
    atoms: Option<Seq<AtomModel>>,
) -> bool {
    kind_of(cmd) is Read && read_lines is Some && atoms is Some ==> content_lines(atom_lines(atoms->0))
        == content_lines(splitlines(obs))
}

/// The chunks of atoms have the lines of the atoms.
proof fn lemma_atom_chunk_lines(atoms: Seq<AtomModel>, file: Option<Seq<char>>, step: i64)
    ensures
        chunk_lines(atom_chunks(atoms, file, step)) == atom_lines(atoms),
    decreases atoms.len(),
{
    let list = atom_chunks(atoms, file, step);
    if atoms.len() > 0 {
        lemma_atom_chunk_lines(atoms.drop_first(), file, step);
        assert(list.drop_first() =~= atom_chunks(atoms.drop_first(), file, step));
    }
}

/// Full coverage with a segmenter: if its atoms keep the lines of an observation, then so do the
/// chunks.
pub proof fn law_segmented_observation_is_covered(
    cmd: Seq<char>,
    obs: Seq<char>,
    step: i64,
    win: nat,
    read_lines: Option<usize>,
    atoms: Option<Seq<AtomModel>>,
)
    requires
        keeps_lines(cmd, obs, read_lines, atoms),
    ensures
        content_lines(chunk_lines(observation_chunks(cmd, obs, step, win, read_lines, atoms))) == content_lines(
            splitlines(obs),
        ),
{
    let kind = kind_of(cmd);
    let bare = bare_chunks(kind, obs, step, win, read_lines, atoms);
    law_kind_is_covered(kind, obs, step, win, read_lines);
    if let KindModel::Read { file, base } = kind {
        if read_lines is Some && atoms is Some && numbered_content(splitlines(obs), base as int).len() > 0 {
            let list = atom_chunks(atoms->0, file, step);
            lemma_atom_chunk_lines(atoms->0, file, step);
            lemma_fallback_covers(list, obs, file, step, "read"@);
        }
    }
    lemma_stamped_lines(bare, cmd, exit_status(obs), obs);
}

/// Lines that are kept have no line feeds if none had.
pub proof fn lemma_content_has_no_feeds(lines: Seq<Seq<char>>)
    requires
        no_feeds(lines),
    ensures
        no_feeds(content_lines(lines)),
    decreases lines.len(),
{
    if lines.len() == 0 {
        lemma_content_lines_none(lines);
    } else {
        let rest = lines.drop_first();
        lemma_no_feeds_part(lines, 1, lines.len() as int);
        assert(lines.subrange(1, lines.len() as int) =~= rest);
        lemma_content_has_no_feeds(rest);
        lemma_content_lines_concat(seq![lines[0]], rest);
        assert(seq![lines[0]] + rest =~= lines);
        if has_content(lines[0]) {
            lemma_content_lines_some(lines[0]);
            let kept = content_lines(lines);
            let tail = content_lines(rest);
            assert forall|i: int, j: int| 0 <= i < kept.len() && 0 <= j < kept[i].len() implies #[trigger] kept[i][j]
                != '\n' by {
                if i == 0 {
                    assert(lines[0][j] != '\n');
                } else {
                    assert(kept[i] == tail[i - 1]);
                    assert(tail[i - 1][j] != '\n');
                }
            }
        } else {
            lemma_content_lines_none(seq![lines[0]]);
            assert(content_lines(lines) =~= content_lines(rest));
        }
    }
}

/// Full coverage for an agent's own message.
pub proof fn law_assistant_text_is_covered(txt: Seq<char>, step: i64, win: nat)
    ensures
        content_lines(chunk_lines(text_chunks(splitlines(txt), win, step, "asst"@))) == content_lines(
            splitlines(txt),
        ),
{
    lemma_lines_have_no_feeds(txt);
    law_text_windows_cover(splitlines(txt), win, step, "asst"@);
}

/// The lines with content of the first `n` observations, one after the other.
pub open spec fn seen_lines(steps: Seq<(String, String)>, n: nat) -> Seq<Seq<char>>
    decreases n,
{
    if n == 0 {
        seq![]
    } else {
        seen_lines(steps, (n - 1) as nat) + content_lines(splitlines(steps[n - 1].1@))
    }
}

/// Full coverage for all that an agent has seen.
pub proof fn law_accumulated_chunks_cover(steps: Seq<(String, String)>, n: nat, read_lines: Option<usize>)
    ensures
        content_lines(chunk_lines(chunks_through(steps, n, read_lines, no_atoms()))) == seen_lines(steps, n),
    decreases n,
{
    let all = chunks_through(steps, n, read_lines, no_atoms());
    if n == 0 {
        lemma_content_lines_none(chunk_lines(all));
    } else {
        let s = n - 1;
        let before = chunks_through(steps, s as nat, read_lines, no_atoms());
        let added = observation_chunks(steps[s].0@, steps[s].1@, s as i64, DEFAULT_WIN as nat, read_lines, None);
        law_accumulated_chunks_cover(steps, s as nat, read_lines);
        law_observation_is_covered(steps[s].0@, steps[s].1@, s as i64, DEFAULT_WIN as nat, read_lines);
        assert(all == before + added);
        lemma_chunk_lines_concat(before, added);
        lemma_content_lines_concat(chunk_lines(before), chunk_lines(added));
    }
}

/// Full coverage for all that an agent has seen, with a segmenter that keeps the lines of every
/// step.
pub proof fn law_segmented_chunks_cover(
    steps: Seq<(String, String)>,
    n: nat,
    read_lines: Option<usize>,
    atoms: spec_fn(int) -> Option<Seq<AtomModel>>,
)
    requires
        forall|s: int| 0 <= s < n ==> #[trigger] keeps_lines(steps[s].0@, steps[s].1@, read_lines, atoms(s)),
    ensures
        content_lines(chunk_lines(chunks_through(steps, n, read_lines, atoms))) == seen_lines(steps, n),
    decreases n,
{
    let all = chunks_through(steps, n, read_lines, atoms);
    if n == 0 {
        lemma_content_lines_none(chunk_lines(all));
    } else {
        let s = n - 1;
        let before = chunks_through(steps, s as nat, read_lines, atoms);
        let added = observation_chunks(
            steps[s].0@,
            steps[s].1@,
            s as i64,
            DEFAULT_WIN as nat,
            read_lines,
            atoms(s),
        );
        law_segmented_chunks_cover(steps, s as nat, read_lines, atoms);
        assert(keeps_lines(steps[s].0@, steps[s].1@, read_lines, atoms(s)));
        law_segmented_observation_is_covered(
            steps[s].0@,
            steps[s].1@,
            s as i64,
            DEFAULT_WIN as nat,
            read_lines,
            atoms(s),
        );
        assert(all == before + added);
        lemma_chunk_lines_concat(before, added);
        lemma_content_lines_concat(chunk_lines(before), chunk_lines(added));
    }
}

/// The texts of chunks, one after the other.
pub open spec fn chunk_text(list: Seq<ChunkModel>) -> Seq<char>
    decreases list.len(),
{
    if list.len() == 0 {
        seq![]
    } else {
        list[0].text + chunk_text(list.drop_first())
    }
}

/// Joining lines adds only whitespace, and so does cutting a text at its line feeds take away.
proof fn lemma_split_keeps_characters(s: Seq<char>)
    ensures
        without_space(s) == without_space(concat(split_on(s, '\n'))),
    decreases s.len(),
{
    let k = first_where(s, is_char('\n'));
    lemma_first_where(s, is_char('\n'));
    if k >= s.len() {
        lemma_concat_one(s);
    } else {
        let first = s.take(k);
        let feed = seq![s[k]];
        let rest = s.skip(k + 1);
        lemma_split_keeps_characters(rest);
        assert(s =~= first + feed + rest);
        lemma_without_space_concat(first + feed, rest);
        lemma_without_space_concat(first, feed);
        lemma_without_space_pure(feed);
        let parts = split_on(s, '\n');
        assert(parts.drop_first() =~= split_on(rest, '\n'));
        assert(parts[0] == first);
        lemma_without_space_concat(first, concat(split_on(rest, '\n')));
        assert(without_space(first) + without_space(feed) =~= without_space(first));
    }
}

/// One part alone.
proof fn lemma_concat_one(s: Seq<char>)
    ensures
        concat(seq![s]) == s,
{
    assert(seq![s].drop_first() =~= seq![]);
    assert(concat(seq![s].drop_first()) =~= seq![]);
    assert(concat(seq![s]) =~= s);
}

/// The parts of two lists are those of the one and then those of the other.
proof fn lemma_concat_concat(a: Seq<Seq<char>>, b: Seq<Seq<char>>)
    ensures
        concat(a + b) == concat(a) + concat(b),
    decreases a.len(),
{
    if a.len() == 0 {
        assert(a + b =~= b);
        assert(concat(a) + concat(b) =~= concat(b));
    } else {
        lemma_concat_concat(a.drop_first(), b);
        assert((a + b).drop_first() =~= a.drop_first() + b);
        assert(concat(a + b) =~= concat(a) + concat(b));
    }
}

/// The lines of chunks have their characters.
proof fn lemma_chunk_lines_keep_characters(list: Seq<ChunkModel>)
    ensures
        without_space(chunk_text(list)) == without_space(concat(chunk_lines(list))),
    decreases list.len(),
{
    if list.len() > 0 {
        let rest = list.drop_first();
        let first = list[0].text;
        lemma_chunk_lines_keep_characters(rest);
        lemma_split_keeps_characters(first);
        lemma_concat_concat(split_on(first, '\n'), chunk_lines(rest));
        lemma_without_space_concat(first, chunk_text(rest));
        lemma_without_space_concat(concat(split_on(first, '\n')), concat(chunk_lines(rest)));
    } else {
        assert(chunk_text(list) =~= concat(chunk_lines(list)));
    }
}

/// Lines without content have only whitespace.
proof fn lemma_content_lines_keep_characters(lines: Seq<Seq<char>>)
    ensures
        without_space(concat(content_lines(lines))) == without_space(concat(lines)),
    decreases lines.len(),
{
    if lines.len() == 0 {
        lemma_content_lines_none(lines);
    } else {
        let first = lines[0];
        let rest = lines.drop_first();
        lemma_content_lines_keep_characters(rest);
        assert(lines =~= seq![first] + rest);
        lemma_content_lines_concat(seq![first], rest);
        lemma_without_space_concat(first, concat(rest));
        if has_content(first) {
            lemma_content_lines_some(first);
            let kept = content_lines(lines);
            assert(kept.drop_first() =~= content_lines(rest));
            lemma_without_space_concat(first, concat(content_lines(rest)));
        } else {
            lemma_content_lines_none(seq![first]);
            assert(content_lines(lines) =~= content_lines(rest));
            lemma_without_space_pure(first);
            assert(without_space(first) + without_space(concat(rest)) =~= without_space(concat(rest)));
        }
    }
}

/// A text and its lines differ only in line breaks, which are whitespace.
proof fn lemma_lines_keep_characters(s: Seq<char>)
    ensures
        without_space(concat(splitlines(s))) == without_space(s),
    decreases s.len(),
{
    if s.len() == 0 {
        assert(concat(splitlines(s)) =~= s);
    } else {
        lemma_first_where(s, |c: char| line_break(c));
        let k = line_end(s);
        let n = break_len(s, k);
        let first = s.take(k);
        let gap = s.subrange(k, k + n);
        let rest = s.skip(k + n);
        lemma_lines_keep_characters(rest);
        assert(s =~= first + gap + rest);
        assert(all_space(gap)) by {
            assert forall|i: int| 0 <= i < gap.len() implies space(#[trigger] gap[i]) by {
                assert(gap[i] == s[k + i]);
                assert(line_break(s[k + i]));
            }
        }
        lemma_without_space_pure(gap);
        lemma_without_space_concat(first + gap, rest);
        lemma_without_space_concat(first, gap);
        let lines = splitlines(s);
        assert(lines[0] == first);
        assert(lines.drop_first() =~= splitlines(rest));
        lemma_without_space_concat(first, concat(splitlines(rest)));
        assert(without_space(first) + without_space(gap) =~= without_space(first));
    }
}

/// Every character of an observation that is not whitespace lands in exactly one chunk, in order.
pub proof fn law_every_character_lands_in_a_chunk(
    cmd: Seq<char>,
    obs: Seq<char>,
    step: i64,
    win: nat,
    read_lines: Option<usize>,
)
    ensures
        without_space(chunk_text(observation_chunks(cmd, obs, step, win, read_lines, None))) == without_space(obs),
{
    let all = observation_chunks(cmd, obs, step, win, read_lines, None);
    law_observation_is_covered(cmd, obs, step, win, read_lines);
    lemma_chunk_lines_keep_characters(all);
    lemma_content_lines_keep_characters(chunk_lines(all));
    lemma_content_lines_keep_characters(splitlines(obs));
    lemma_lines_keep_characters(obs);
}

/// Every character of an observation that is not whitespace lands in exactly one chunk, in order,
/// with a segmenter that keeps the lines too.
pub proof fn law_every_segmented_character_lands_in_a_chunk(
    cmd: Seq<char>,
    obs: Seq<char>,
    step: i64,
    win: nat,
    read_lines: Option<usize>,
    atoms: Option<Seq<AtomModel>>,
)
    requires
        keeps_lines(cmd, obs, read_lines, atoms),
    ensures
        without_space(chunk_text(observation_chunks(cmd, obs, step, win, read_lines, atoms))) == without_space(obs),
{
    let all = observation_chunks(cmd, obs, step, win, read_lines, atoms);
    law_segmented_observation_is_covered(cmd, obs, step, win, read_lines, atoms);
    lemma_chunk_lines_keep_characters(all);
    lemma_content_lines_keep_characters(chunk_lines(all));
    lemma_content_lines_keep_characters(splitlines(obs));
    lemma_lines_keep_characters(obs);
}

/// Every character of an agent's own message that is not whitespace lands in exactly one chunk, in
/// order.
pub proof fn law_every_assistant_character_lands_in_a_chunk(txt: Seq<char>, step: i64, win: nat)
    ensures
        without_space(chunk_text(text_chunks(splitlines(txt), win, step, "asst"@))) == without_space(txt),
{
    let all = text_chunks(splitlines(txt), win, step, "asst"@);
    law_assistant_text_is_covered(txt, step, win);
    lemma_chunk_lines_keep_characters(all);
    lemma_content_lines_keep_characters(chunk_lines(all));
    lemma_content_lines_keep_characters(splitlines(txt));
    lemma_lines_keep_characters(txt);
}

} // verus!
