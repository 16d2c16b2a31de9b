//! Laws of single chunks and of lists of them: what they carry, where they lie, how they grow.
use vstd::prelude::*;

use crate::chunk::{ChunkMode, ChunkModel, DEFAULT_WIN};
use crate::chunking::{all_stamped, atom_chunks, atoms_under, bare_chunks, chunks_through, first_hit, group_chunks, hit_chunk, lemma_first_hit, lf, line_after, line_texts, no_atoms, numbered_content, observation_chunks, read_chunks, search_chunks, step_atoms, steps_through, text_chunks, window_len, AtomModel, CstAtom, CMD_HEAD, OBS_HEAD};
use crate::command::{exit_status, file_of, first_line, kind_of, KindModel};
use crate::laws::commands::law_candidate_is_a_base_name;
use crate::laws::coverage::{chunk_lines, content_lines, law_content_is_on_some_line, lemma_content_lines_empty, law_groups_hold_the_lines, law_numbered_lines_are_the_content, law_read_windows_hold_the_lines, lemma_content_has_no_feeds, lemma_lines_have_no_feeds, lemma_no_feeds_part, lemma_split_join, lemma_stamped_lines, no_feeds};
use crate::pattern::search_command;
use crate::pystr::{has_content, prefix, space, splitlines};
use crate::text::{join, split_on};

verus! {

/// The size of a window: one of no lines is taken as one of a single line.
pub open spec fn window_size(win: nat) -> nat {
    if win == 0 {
        1
    } else {
        win
    }
}

/// How many lines the text of a chunk has.
pub open spec fn line_count(c: ChunkModel) -> nat {
    split_on(c.text, '\n').len()
}

/// A window of text that is no file: it has content, at most `win` lines, and no place.
pub open spec fn text_window(c: ChunkModel, win: nat, step: i64, kind: Seq<char>) -> bool {
    &&& has_content(c.text)
    &&& line_count(c) <= window_size(win)
    &&& c.kind == kind
    &&& c.step == step
    &&& c.file is None
    &&& c.lo is None
    &&& c.hi is None
}

/// No window is blank or longer than asked.
pub proof fn law_text_windows_have_content(lines: Seq<Seq<char>>, win: nat, step: i64, kind: Seq<char>)
    requires
        no_feeds(lines),
    ensures
        forall|i: int|
            0 <= i < text_chunks(lines, win, step, kind).len() ==> text_window(
                #[trigger] text_chunks(lines, win, step, kind)[i],
                win,
                step,
                kind,
            ),
    decreases lines.len(),
{
    if lines.len() > 0 {
        let n = window_len(win, lines.len()) as int;
        let all = text_chunks(lines, win, step, kind);
        let rest = text_chunks(lines.skip(n), win, step, kind);
        lemma_no_feeds_part(lines, n, lines.len() as int);
        assert(lines.subrange(n, lines.len() as int) =~= lines.skip(n));
        law_text_windows_have_content(lines.skip(n), win, step, kind);
        if has_content(join(lines.take(n), lf())) {
            lemma_no_feeds_part(lines, 0, n);
            assert(lines.subrange(0, n) =~= lines.take(n));
            lemma_split_join(lines.take(n));
            assert forall|i: int| 0 <= i < all.len() implies text_window(#[trigger] all[i], win, step, kind) by {
                if i > 0 {
                    assert(all[i] == rest[i - 1]);
                }
            }
        }
    }
}

/// The chunks cover the lines from `from` up to `to` without a gap or an overlap, each with as many
/// numbers as it has lines, and at most `size`.
pub open spec fn contiguous(list: Seq<ChunkModel>, from: int, to: int, size: nat) -> bool
    decreases list.len(),
{
    if list.len() == 0 {
        from == to
    } else {
        let n = line_count(list[0]);
        &&& 1 <= n <= size
        &&& list[0].lo is Some
        &&& list[0].lo->0 == from
        &&& list[0].hi is Some
        &&& list[0].hi->0 == from + n - 1
        &&& contiguous(list.drop_first(), from + n, to, size)
    }
}

/// The windows of a file have contiguous line ranges from its first line to its last, as long as
/// these are numbers that `i64` holds.
pub proof fn law_read_ranges_are_contiguous(
    lines: Seq<Seq<char>>,
    file: Option<Seq<char>>,
    base: int,
    win: nat,
    step: i64,
)
    requires
        no_feeds(lines),
        i64::MIN <= base,
        base + lines.len() - 1 <= i64::MAX,
    ensures
        contiguous(read_chunks(lines, file, base, win, step), base, base + lines.len(), window_size(win)),
    decreases lines.len(),
{
    if lines.len() > 0 {
        let n = window_len(win, lines.len()) as int;
        let all = read_chunks(lines, file, base, win, step);
        let rest = read_chunks(lines.skip(n), file, base + n, win, step);
        lemma_no_feeds_part(lines, 0, n);
        lemma_no_feeds_part(lines, n, lines.len() as int);
        assert(lines.subrange(0, n) =~= lines.take(n));
        assert(lines.subrange(n, lines.len() as int) =~= lines.skip(n));
        lemma_split_join(lines.take(n));
        law_read_ranges_are_contiguous(lines.skip(n), file, base + n, win, step);
        assert(all.drop_first() =~= rest);
        assert(line_count(all[0]) == n);
    }
}

/// The chunks lie above the line `after` in the order of their lines, each with at most `size`
/// lines.
pub open spec fn increasing(list: Seq<ChunkModel>, after: int, size: nat) -> bool
    decreases list.len(),
{
    if list.len() == 0 {
        true
    } else {
        &&& list[0].lo is Some
        &&& list[0].hi is Some
        &&& after < list[0].lo->0 <= list[0].hi->0
        &&& line_count(list[0]) <= size
        &&& increasing(list.drop_first(), list[0].hi->0 as int, size)
    }
}

/// The numbers of lines go up, from `from` on.
pub open spec fn ascending(lines: Seq<(i64, Seq<char>)>, from: int) -> bool {
    &&& forall|i: int| 0 <= i < lines.len() ==> from <= (#[trigger] lines[i]).0
    &&& forall|i: int, j: int| 0 <= i < j < lines.len() ==> (#[trigger] lines[i]).0 < (#[trigger] lines[j]).0
}

/// Lines with content keep their numbers, which go up.
pub proof fn law_line_numbers_ascend(lines: Seq<Seq<char>>, base: int)
    requires
        i64::MIN <= base,
        base + lines.len() - 1 <= i64::MAX,
    ensures
        ascending(numbered_content(lines, base), base),
    decreases lines.len(),
{
    if lines.len() > 0 {
        let rest = numbered_content(lines.drop_first(), base + 1);
        let all = numbered_content(lines, base);
        law_line_numbers_ascend(lines.drop_first(), base + 1);
        if has_content(lines[0]) {
            assert forall|i: int| 0 <= i < all.len() implies base <= (#[trigger] all[i]).0 by {
                if i > 0 {
                    assert(all[i] == rest[i - 1]);
                }
            }
            assert forall|i: int, j: int| 0 <= i < j < all.len() implies (#[trigger] all[i]).0 < (#[trigger] all[j]).0 by {
                assert(all[j] == rest[j - 1]);
                if i > 0 {
                    assert(all[i] == rest[i - 1]);
                }
            }
        }
    }
}

/// Lines with content keep their place: each has the number that its index gives it.
pub proof fn law_numbered_lines_keep_their_place(lines: Seq<Seq<char>>, base: int)
    ensures
        forall|i: int|
            0 <= i < numbered_content(lines, base).len() ==> #[trigger] in_place(
                numbered_content(lines, base)[i],
                lines,
                base,
            ),
    decreases lines.len(),
{
    if lines.len() > 0 {
        let later = lines.drop_first();
        let rest = numbered_content(later, base + 1);
        let all = numbered_content(lines, base);
        law_numbered_lines_keep_their_place(later, base + 1);
        assert forall|i: int| 0 <= i < all.len() implies #[trigger] in_place(all[i], lines, base) by {
            if has_content(lines[0]) && i == 0 {
                assert(all[0] == (line_after(base, 0), lines[0]));
            } else {
                let j = if has_content(lines[0]) {
                    i - 1
                } else {
                    i
                };
                assert(all[i] == rest[j]);
                assert(in_place(rest[j], later, base + 1));
                let k = choose|k: int| 0 <= k < later.len() && rest[j] == (line_after(base + 1, k), #[trigger] later[k]);
                assert(lines[k + 1] == later[k]);
                assert(line_after(base + 1, k) == line_after(base, k + 1));
            }
        }
    }
}

/// The numbered line is one of `lines`, under the number of its place.
pub open spec fn in_place(line: (i64, Seq<char>), lines: Seq<Seq<char>>, base: int) -> bool {
    exists|k: int| 0 <= k < lines.len() && line == (line_after(base, k), #[trigger] lines[k])
}

/// Groups of numbered lines that go up have line ranges that go up.
pub proof fn law_group_ranges_increase(
    lines: Seq<(i64, Seq<char>)>,
    file: Option<Seq<char>>,
    size: nat,
    step: i64,
    from: int,
)
    requires
        no_feeds(line_texts(lines)),
        ascending(lines, from),
    ensures
        increasing(group_chunks(lines, file, size, step), from - 1, window_size(size)),
    decreases lines.len(),
{
    if lines.len() > 0 {
        let n = window_len(size, lines.len()) as int;
        let all = group_chunks(lines, file, size, step);
        let rest = group_chunks(lines.skip(n), file, size, step);
        let texts = line_texts(lines);
        assert(line_texts(lines.take(n)) =~= texts.subrange(0, n));
        assert(line_texts(lines.skip(n)) =~= texts.subrange(n, texts.len() as int));
        lemma_no_feeds_part(texts, 0, n);
        lemma_no_feeds_part(texts, n, texts.len() as int);
        lemma_split_join(texts.subrange(0, n));
        let tail = lines.skip(n);
        let next = lines[n - 1].0 + 1;
        assert forall|i: int| 0 <= i < tail.len() implies next <= (#[trigger] tail[i]).0 by {
            assert(tail[i] == lines[n + i]);
        }
        assert forall|i: int, j: int| 0 <= i < j < tail.len() implies (#[trigger] tail[i]).0 < (#[trigger] tail[j]).0 by {
            assert(tail[i] == lines[n + i]);
            assert(tail[j] == lines[n + j]);
        }
        law_group_ranges_increase(tail, file, size, step, next);
        assert(all.drop_first() =~= rest);
        if n > 1 {
            assert(lines[0].0 < lines[n - 1].0);
        }
    }
}

/// A chunk of content of a step, with a positive weight.
pub open spec fn weighed(c: ChunkModel, step: i64) -> bool {
    &&& c.step == step
    &&& c.tokens >= 1
    &&& c.evict == "content"@
}

/// Every chunk of a list is a chunk of content of a step, with a positive weight.
pub open spec fn all_weighed(list: Seq<ChunkModel>, step: i64) -> bool {
    forall|i: int| 0 <= i < list.len() ==> weighed(#[trigger] list[i], step)
}

/// What holds of two lists holds of one after the other.
proof fn lemma_weighed_concat(a: Seq<ChunkModel>, b: Seq<ChunkModel>, step: i64)
    requires
        all_weighed(a, step),
        all_weighed(b, step),
    ensures
        all_weighed(a + b, step),
{
    assert forall|i: int| 0 <= i < (a + b).len() implies weighed(#[trigger] (a + b)[i], step) by {
        if i < a.len() {
            assert((a + b)[i] == a[i]);
        } else {
            assert((a + b)[i] == b[i - a.len()]);
        }
    }
}

/// Windows of text are weighed.
pub proof fn law_text_chunks_are_weighed(lines: Seq<Seq<char>>, win: nat, step: i64, kind: Seq<char>)
    ensures
        all_weighed(text_chunks(lines, win, step, kind), step),
    decreases lines.len(),
{
    if lines.len() > 0 {
        let n = window_len(win, lines.len()) as int;
        let all = text_chunks(lines, win, step, kind);
        law_text_chunks_are_weighed(lines.skip(n), win, step, kind);
        if has_content(join(lines.take(n), lf())) {
            lemma_weighed_concat(seq![all[0]], text_chunks(lines.skip(n), win, step, kind), step);
        }
    }
}

/// The chunks of a search are weighed.
proof fn lemma_search_weighed(lines: Seq<Seq<char>>, win: nat, step: i64)
    ensures
        all_weighed(search_chunks(lines, win, step), step),
    decreases lines.len(),
{
    let k = first_hit(lines);
    lemma_first_hit(lines);
    if k >= lines.len() {
        law_text_chunks_are_weighed(lines, win, step, "other"@);
    } else {
        let a = text_chunks(lines.take(k), win, step, "other"@);
        let b = seq![hit_chunk(lines[k], step)];
        law_text_chunks_are_weighed(lines.take(k), win, step, "other"@);
        lemma_search_weighed(lines.skip(k + 1), win, step);
        lemma_weighed_concat(a, b, step);
        lemma_weighed_concat(a + b, search_chunks(lines.skip(k + 1), win, step), step);
    }
}

/// The windows of a file are weighed.
proof fn lemma_read_weighed(lines: Seq<Seq<char>>, file: Option<Seq<char>>, base: int, win: nat, step: i64)
    ensures
        all_weighed(read_chunks(lines, file, base, win, step), step),
    decreases lines.len(),
{
    if lines.len() > 0 {
        let n = window_len(win, lines.len()) as int;
        let all = read_chunks(lines, file, base, win, step);
        lemma_read_weighed(lines.skip(n), file, base + n, win, step);
        lemma_weighed_concat(seq![all[0]], read_chunks(lines.skip(n), file, base + n, win, step), step);
    }
}

/// Groups of lines are weighed.
proof fn lemma_groups_weighed(lines: Seq<(i64, Seq<char>)>, file: Option<Seq<char>>, size: nat, step: i64)
    ensures
        all_weighed(group_chunks(lines, file, size, step), step),
    decreases lines.len(),
{
    if lines.len() > 0 {
        let n = window_len(size, lines.len()) as int;
        let all = group_chunks(lines, file, size, step);
        lemma_groups_weighed(lines.skip(n), file, size, step);
        lemma_weighed_concat(seq![all[0]], group_chunks(lines.skip(n), file, size, step), step);
    }
}

/// Whatever the kind of output, there is a chunk, and every chunk is weighed.
proof fn lemma_bare_weighed(
    kind: KindModel,
    obs: Seq<char>,
    step: i64,
    win: nat,
    read_lines: Option<usize>,
    atoms: Option<Seq<AtomModel>>,
)
    ensures
        bare_chunks(kind, obs, step, win, read_lines, atoms).len() > 0,
        all_weighed(bare_chunks(kind, obs, step, win, read_lines, atoms), step),
{
    let lines = splitlines(obs);
    match kind {
        KindModel::Search => {
            lemma_search_weighed(lines, win, step);
        },
        KindModel::Read { file, base } => {
            let content = numbered_content(lines, base as int);
            match (read_lines, atoms) {
                (Some(_), Some(found)) if content.len() > 0 => {
                    assert(all_weighed(atom_chunks(found, file, step), step));
                },
                (Some(size), _) => {
                    lemma_groups_weighed(content, file, size as nat, step);
                },
                _ => {
                    lemma_read_weighed(lines, file, base as int, win, step);
                },
            }
        },
        KindModel::Other => {
            law_text_chunks_are_weighed(lines, win, step, "other"@);
        },
    }
}

/// What every chunk of an observation carries.
pub open spec fn carries(c: ChunkModel, cmd: Seq<char>, obs: Seq<char>, step: i64) -> bool {
    &&& weighed(c, step)
    &&& c.cmd == prefix(cmd, CMD_HEAD as int)
    &&& c.rc == exit_status(obs)
    &&& c.head == prefix(obs, OBS_HEAD as int)
}

/// An observation always has a chunk, and every chunk of it carries the head of its command, the
/// exit status, the head of the observation, its step and a positive weight.
pub proof fn law_observation_chunks_carry_their_step(
    cmd: Seq<char>,
    obs: Seq<char>,
    step: i64,
    win: nat,
    read_lines: Option<usize>,
    atoms: Option<Seq<AtomModel>>,
)
    ensures
        observation_chunks(cmd, obs, step, win, read_lines, atoms).len() > 0,
        forall|i: int|
            0 <= i < observation_chunks(cmd, obs, step, win, read_lines, atoms).len() ==> carries(
                #[trigger] observation_chunks(cmd, obs, step, win, read_lines, atoms)[i],
                cmd,
                obs,
                step,
            ),
{
    let bare = bare_chunks(kind_of(cmd), obs, step, win, read_lines, atoms);
    let all = observation_chunks(cmd, obs, step, win, read_lines, atoms);
    lemma_bare_weighed(kind_of(cmd), obs, step, win, read_lines, atoms);
    assert forall|i: int| 0 <= i < all.len() implies carries(#[trigger] all[i], cmd, obs, step) by {
        assert(weighed(bare[i], step));
    }
}

/// What a chunk carries of its step does not move it.
proof fn lemma_stamped_ranges(list: Seq<ChunkModel>, cmd: Seq<char>, rc: Option<i64>, obs: Seq<char>, from: int, to: int, size: nat)
    ensures
        contiguous(all_stamped(list, cmd, rc, obs), from, to, size) == contiguous(list, from, to, size),
        increasing(all_stamped(list, cmd, rc, obs), from, size) == increasing(list, from, size),
    decreases list.len(),
{
    if list.len() > 0 {
        let all = all_stamped(list, cmd, rc, obs);
        let n = line_count(list[0]);
        assert(all.drop_first() =~= all_stamped(list.drop_first(), cmd, rc, obs));
        lemma_stamped_ranges(list.drop_first(), cmd, rc, obs, from + n, to, size);
        lemma_stamped_ranges(list.drop_first(), cmd, rc, obs, list[0].hi->0 as int, to, size);
    }
}

/// The chunks of a file that was read by windows are its lines, with contiguous numbers from the
/// first line that the command shows. Without lines there is one chunk, which has no place.
pub proof fn law_read_output_is_contiguous(cmd: Seq<char>, obs: Seq<char>, step: i64, win: nat)
    requires
        kind_of(cmd) is Read,
        first_line(cmd) + splitlines(obs).len() - 1 <= i64::MAX,
    ensures
        splitlines(obs).len() > 0 ==> {
            let all = observation_chunks(cmd, obs, step, win, None, None);
            &&& chunk_lines(all) == splitlines(obs)
            &&& contiguous(all, first_line(cmd) as int, first_line(cmd) + splitlines(obs).len(), window_size(win))
        },
        splitlines(obs).len() == 0 ==> {
            let all = observation_chunks(cmd, obs, step, win, None, None);
            &&& all.len() == 1
            &&& all[0].text == obs
            &&& all[0].lo is None
            &&& all[0].hi is None
        },
{
    let lines = splitlines(obs);
    let base = first_line(cmd) as int;
    let file = file_of(cmd);
    let list = read_chunks(lines, file, base, win, step);
    lemma_lines_have_no_feeds(obs);
    law_read_windows_hold_the_lines(lines, file, base, win, step);
    law_read_ranges_are_contiguous(lines, file, base, win, step);
    lemma_stamped_lines(list, cmd, exit_status(obs), obs);
    lemma_stamped_ranges(list, cmd, exit_status(obs), obs, base, base + lines.len(), window_size(win));
}

/// The chunks of a file that was read by groups are its lines with content, with numbers that go up
/// from the first line that the command shows. Without such lines the one chunk is the whole
/// observation.
pub proof fn law_read_groups_increase(cmd: Seq<char>, obs: Seq<char>, step: i64, win: nat, size: usize)
    requires
        kind_of(cmd) is Read,
        first_line(cmd) + splitlines(obs).len() - 1 <= i64::MAX,
    ensures
        content_lines(splitlines(obs)).len() > 0 ==> {
            let all = observation_chunks(cmd, obs, step, win, Some(size), None);
            &&& chunk_lines(all) == content_lines(splitlines(obs))
            &&& increasing(all, first_line(cmd) - 1, window_size(size as nat))
        },
        content_lines(splitlines(obs)).len() == 0 ==> {
            let all = observation_chunks(cmd, obs, step, win, Some(size), None);
            &&& all.len() == 1
            &&& all[0].text == obs
            &&& all[0].lo is None
            &&& all[0].hi is None
        },
{
    let lines = splitlines(obs);
    let base = first_line(cmd) as int;
    let file = file_of(cmd);
    let content = numbered_content(lines, base);
    let list = group_chunks(content, file, size as nat, step);
    lemma_lines_have_no_feeds(obs);
    lemma_content_has_no_feeds(lines);
    law_numbered_lines_are_the_content(lines, base);
    law_line_numbers_ascend(lines, base);
    law_groups_hold_the_lines(content, file, size as nat, step);
    law_group_ranges_increase(content, file, size as nat, step, base);
    lemma_stamped_lines(list, cmd, exit_status(obs), obs);
    lemma_stamped_ranges(list, cmd, exit_status(obs), obs, base - 1, base, window_size(size as nat));
    assert(content.len() == line_texts(content).len());
}

/// Joined blank lines are blank.
proof fn lemma_join_blank(lines: Seq<Seq<char>>)
    requires
        forall|i: int| 0 <= i < lines.len() ==> !has_content(#[trigger] lines[i]),
    ensures
        !has_content(join(lines, lf())),
    decreases lines.len(),
{
    if lines.len() > 1 {
        let rest = lines.drop_first();
        let text = join(lines, lf());
        let later = join(rest, lf());
        let n = lines[0].len();
        assert forall|i: int| 0 <= i < rest.len() implies !has_content(#[trigger] rest[i]) by {
            assert(rest[i] == lines[i + 1]);
        }
        lemma_join_blank(rest);
        if has_content(text) {
            let j = choose|j: int| 0 <= j < text.len() && !space(#[trigger] text[j]);
            if j < n {
                assert(text[j] == lines[0][j]);
                assert(has_content(lines[0]));
            } else if j > n {
                assert(text[j] == later[j - n - 1]);
            }
        }
    }
}

/// Blank lines have no windows with content.
proof fn lemma_text_blank(lines: Seq<Seq<char>>, win: nat, step: i64, kind: Seq<char>)
    requires
        forall|i: int| 0 <= i < lines.len() ==> !has_content(#[trigger] lines[i]),
    ensures
        text_chunks(lines, win, step, kind).len() == 0,
    decreases lines.len(),
{
    if lines.len() > 0 {
        let n = window_len(win, lines.len()) as int;
        let rest = lines.skip(n);
        assert forall|i: int| 0 <= i < lines.take(n).len() implies !has_content(#[trigger] lines.take(n)[i]) by {
            assert(lines.take(n)[i] == lines[i]);
        }
        assert forall|i: int| 0 <= i < rest.len() implies !has_content(#[trigger] rest[i]) by {
            assert(rest[i] == lines[n + i]);
        }
        lemma_join_blank(lines.take(n));
        lemma_text_blank(rest, win, step, kind);
    }
}

/// Output without content that is no file is one chunk, which holds all of it.
pub proof fn law_blank_output_is_one_chunk(
    cmd: Seq<char>,
    obs: Seq<char>,
    step: i64,
    win: nat,
    read_lines: Option<usize>,
)
    requires
        !has_content(obs),
        !(kind_of(cmd) is Read),
    ensures
        observation_chunks(cmd, obs, step, win, read_lines, None).len() == 1,
        observation_chunks(cmd, obs, step, win, read_lines, None)[0].text == obs,
        observation_chunks(cmd, obs, step, win, read_lines, None)[0].kind == "other"@,
{
    let lines = splitlines(obs);
    law_content_is_on_some_line(obs);
    lemma_content_lines_empty(lines);
    lemma_text_blank(lines, win, step, "other"@);
    lemma_first_hit(lines);
    if first_hit(lines) < lines.len() {
        law_candidate_is_a_base_name(lines[first_hit(lines)]);
    }
}

/// A window of no lines gives what a window of one line gives.
proof fn lemma_text_zero(lines: Seq<Seq<char>>, step: i64, kind: Seq<char>)
    ensures
        text_chunks(lines, 0, step, kind) == text_chunks(lines, 1, step, kind),
    decreases lines.len(),
{
    if lines.len() > 0 {
        lemma_text_zero(lines.skip(1), step, kind);
    }
}

/// A window of no lines gives what a window of one line gives, for a search.
proof fn lemma_search_zero(lines: Seq<Seq<char>>, step: i64)
    ensures
        search_chunks(lines, 0, step) == search_chunks(lines, 1, step),
    decreases lines.len(),
{
    let k = first_hit(lines);
    lemma_first_hit(lines);
    if k >= lines.len() {
        lemma_text_zero(lines, step, "other"@);
    } else {
        lemma_text_zero(lines.take(k), step, "other"@);
        lemma_search_zero(lines.skip(k + 1), step);
    }
}

/// A window of no lines gives what a window of one line gives, for a file.
proof fn lemma_read_zero(lines: Seq<Seq<char>>, file: Option<Seq<char>>, base: int, step: i64)
    ensures
        read_chunks(lines, file, base, 0, step) == read_chunks(lines, file, base, 1, step),
    decreases lines.len(),
{
    if lines.len() > 0 {
        lemma_read_zero(lines.skip(1), file, base + 1, step);
    }
}

/// Groups of no lines are those of one line.
proof fn lemma_group_zero(lines: Seq<(i64, Seq<char>)>, file: Option<Seq<char>>, step: i64)
    ensures
        group_chunks(lines, file, 0, step) == group_chunks(lines, file, 1, step),
    decreases lines.len(),
{
    if lines.len() > 0 {
        lemma_group_zero(lines.skip(1), file, step);
    }
}

/// A window of no lines gives what a window of one line gives.
pub proof fn law_zero_window_is_one_line(
    cmd: Seq<char>,
    obs: Seq<char>,
    step: i64,
    read_lines: Option<usize>,
    atoms: Option<Seq<AtomModel>>,
)
    ensures
        observation_chunks(cmd, obs, step, 0, read_lines, atoms) == observation_chunks(
            cmd,
            obs,
            step,
            1,
            read_lines,
            atoms,
        ),
        text_chunks(splitlines(obs), 0, step, "asst"@) == text_chunks(splitlines(obs), 1, step, "asst"@),
{
    let lines = splitlines(obs);
    lemma_text_zero(lines, step, "asst"@);
    lemma_text_zero(lines, step, "other"@);
    lemma_search_zero(lines, step);
    if let KindModel::Read { file, base } = kind_of(cmd) {
        lemma_read_zero(lines, file, base as int, step);
    }
}

/// A group size of no lines gives what one of a single line gives.
pub proof fn law_zero_group_is_one_line(
    cmd: Seq<char>,
    obs: Seq<char>,
    step: i64,
    win: nat,
    atoms: Option<Seq<AtomModel>>,
)
    ensures
        observation_chunks(cmd, obs, step, win, Some(0), atoms) == observation_chunks(
            cmd,
            obs,
            step,
            win,
            Some(1),
            atoms,
        ),
{
    if let KindModel::Read { file, base } = kind_of(cmd) {
        lemma_group_zero(numbered_content(splitlines(obs), base as int), file, step);
    }
}

/// Only the output of a read is grouped by its lines with content: for any other command a group
/// size and a segmenter change nothing. A command that searches is no read.
pub proof fn law_only_reads_are_grouped(
    cmd: Seq<char>,
    obs: Seq<char>,
    step: i64,
    win: nat,
    read_lines: Option<usize>,
    atoms: Option<Seq<AtomModel>>,
)
    requires
        search_command(cmd) || !(kind_of(cmd) is Read),
    ensures
        observation_chunks(cmd, obs, step, win, read_lines, atoms) == observation_chunks(
            cmd,
            obs,
            step,
            win,
            None,
            None,
        ),
{
}

/// The steps of chunks do not go down, and lie within `0..n`.
pub open spec fn in_step_order(list: Seq<ChunkModel>, n: int) -> bool {
    &&& forall|i: int| 0 <= i < list.len() ==> 0 <= (#[trigger] list[i]).step < n
    &&& forall|i: int, j: int|
        0 <= i <= j < list.len() ==> (#[trigger] list[i]).step <= (#[trigger] list[j]).step
}

/// Accumulated chunks come in the order of their steps, and every step has one at least.
pub proof fn law_accumulated_chunks_are_in_step_order(
    steps: Seq<(String, String)>,
    n: nat,
    read_lines: Option<usize>,
    atoms: spec_fn(int) -> Option<Seq<AtomModel>>,
)
    requires
        n <= i64::MAX,
    ensures
        in_step_order(chunks_through(steps, n, read_lines, atoms), n as int),
        chunks_through(steps, n, read_lines, atoms).len() >= n,
        forall|s: int| 0 <= s < n ==> #[trigger] has_step(chunks_through(steps, n, read_lines, atoms), s),
    decreases n,
{
    if n > 0 {
        let s = n - 1;
        let before = chunks_through(steps, s as nat, read_lines, atoms);
        let added = observation_chunks(
            steps[s].0@,
            steps[s].1@,
            s as i64,
            DEFAULT_WIN as nat,
            read_lines,
            atoms(s),
        );
        let all = chunks_through(steps, n, read_lines, atoms);
        law_accumulated_chunks_are_in_step_order(steps, s as nat, read_lines, atoms);
        law_observation_chunks_carry_their_step(
            steps[s].0@,
            steps[s].1@,
            s as i64,
            DEFAULT_WIN as nat,
            read_lines,
            atoms(s),
        );
        assert(all == before + added);
        assert forall|i: int| 0 <= i < all.len() implies 0 <= (#[trigger] all[i]).step < n && (i < before.len() ==> all[i].step < s)
            && (i >= before.len() ==> all[i].step == s) by {
            if i < before.len() {
                assert(all[i] == before[i]);
            } else {
                assert(all[i] == added[i - before.len()]);
                assert(carries(added[i - before.len()], steps[s].0@, steps[s].1@, s as i64));
            }
        }
        assert forall|i: int, j: int| 0 <= i <= j < all.len() implies (#[trigger] all[i]).step <= (#[trigger] all[j]).step by {
            if j < before.len() {
                assert(all[i] == before[i] && all[j] == before[j]);
            }
        }
        assert forall|t: int| 0 <= t < n implies #[trigger] has_step(all, t) by {
            if t < s {
                assert(has_step(before, t));
                let i = choose|i: int| 0 <= i < before.len() && (#[trigger] before[i]).step == t;
                assert(all[i] == before[i]);
            } else {
                assert(all[before.len() as int].step == t);
            }
        }
    }
}

/// Some chunk is of the step `s`.
pub open spec fn has_step(list: Seq<ChunkModel>, s: int) -> bool {
    exists|i: int| 0 <= i < list.len() && (#[trigger] list[i]).step == s
}

/// What an agent has seen only grows: the chunks through a step start those through any later one,
/// and what is added belongs to later steps.
pub proof fn law_accumulated_chunks_only_grow(
    steps: Seq<(String, String)>,
    n: nat,
    m: nat,
    read_lines: Option<usize>,
    atoms: spec_fn(int) -> Option<Seq<AtomModel>>,
)
    requires
        n <= m,
    ensures
        chunks_through(steps, n, read_lines, atoms).is_prefix_of(chunks_through(steps, m, read_lines, atoms)),
        m <= i64::MAX ==> forall|i: int|
            chunks_through(steps, n, read_lines, atoms).len() <= i < chunks_through(steps, m, read_lines, atoms).len()
                ==> (#[trigger] chunks_through(steps, m, read_lines, atoms)[i]).step >= n,
    decreases m,
{
    if n < m {
        let s = m - 1;
        let start = chunks_through(steps, n, read_lines, atoms);
        let before = chunks_through(steps, s as nat, read_lines, atoms);
        let all = chunks_through(steps, m, read_lines, atoms);
        let added = observation_chunks(
            steps[s].0@,
            steps[s].1@,
            s as i64,
            DEFAULT_WIN as nat,
            read_lines,
            atoms(s),
        );
        law_accumulated_chunks_only_grow(steps, n, s as nat, read_lines, atoms);
        law_observation_chunks_carry_their_step(
            steps[s].0@,
            steps[s].1@,
            s as i64,
            DEFAULT_WIN as nat,
            read_lines,
            atoms(s),
        );
        assert(all == before + added);
        if m <= i64::MAX {
            assert forall|i: int| start.len() <= i < all.len() implies (#[trigger] all[i]).step >= n by {
                if i < before.len() {
                    assert(all[i] == before[i]);
                } else {
                    assert(all[i] == added[i - before.len()]);
                    assert(carries(added[i - before.len()], steps[s].0@, steps[s].1@, s as i64));
                }
            }
        }
    }
}

/// The chunk is of the step `upto` or an earlier one.
pub open spec fn up_to(upto: nat) -> spec_fn(ChunkModel) -> bool {
    |c: ChunkModel| c.step <= upto
}

/// Filtering keeps a list of which every item counts, and nothing of one of which none does.
pub proof fn lemma_filter_pure(list: Seq<ChunkModel>, p: spec_fn(ChunkModel) -> bool)
    ensures
        (forall|i: int| 0 <= i < list.len() ==> p(#[trigger] list[i])) ==> list.filter(p) == list,
        (forall|i: int| 0 <= i < list.len() ==> !p(#[trigger] list[i])) ==> list.filter(p).len() == 0,
    decreases list.len(),
{
    reveal(Seq::filter);
    if list.len() > 0 {
        let before = list.drop_last();
        lemma_filter_pure(before, p);
        if forall|i: int| 0 <= i < list.len() ==> p(#[trigger] list[i]) {
            assert forall|i: int| 0 <= i < before.len() implies p(#[trigger] before[i]) by {
                assert(before[i] == list[i]);
            }
            assert(p(list[list.len() - 1]));
            assert(before.push(list.last()) =~= list);
        }
        if forall|i: int| 0 <= i < list.len() ==> !p(#[trigger] list[i]) {
            assert forall|i: int| 0 <= i < before.len() implies !p(#[trigger] before[i]) by {
                assert(before[i] == list[i]);
            }
            assert(!p(list[list.len() - 1]));
        }
    }
}

/// What an agent has seen through a step is the start of what it has seen through any later one,
/// namely the chunks of the steps so far. Every one of these steps has a chunk, in order, and
/// without steps there is none. That the index of every step fits in `i64` is no condition on
/// callers of `accumulated_chunks`, which ensures it.
pub proof fn law_accumulated_chunks_respect_upto(
    steps: Seq<(String, String)>,
    upto: nat,
    later: nat,
    read_lines: Option<usize>,
    atoms: spec_fn(int) -> Option<Seq<AtomModel>>,
)
    requires
        upto <= later,
        steps_through(later, steps.len()) <= i64::MAX,
    ensures
        ({
            let n = steps_through(upto, steps.len());
            let seen = chunks_through(steps, n, read_lines, atoms);
            let all = chunks_through(steps, steps_through(later, steps.len()), read_lines, atoms);
            &&& seen.is_prefix_of(all)
            &&& seen == all.filter(up_to(upto))
            &&& in_step_order(seen, n as int)
            &&& forall|s: int| 0 <= s < n ==> #[trigger] has_step(seen, s)
            &&& steps.len() == 0 ==> seen.len() == 0
        }),
{
    let n = steps_through(upto, steps.len());
    let m = steps_through(later, steps.len());
    let seen = chunks_through(steps, n, read_lines, atoms);
    let all = chunks_through(steps, m, read_lines, atoms);
    let p = up_to(upto);
    law_accumulated_chunks_only_grow(steps, n, m, read_lines, atoms);
    law_accumulated_chunks_are_in_step_order(steps, n, read_lines, atoms);
    let added = all.skip(seen.len() as int);
    assert(all =~= seen + added);
    Seq::filter_distributes_over_add(seen, added, p);
    assert forall|i: int| 0 <= i < added.len() implies !p(#[trigger] added[i]) by {
        assert(added[i] == all[seen.len() + i]);
    }
    lemma_filter_pure(seen, p);
    lemma_filter_pure(added, p);
    assert(seen + added.filter(p) =~= seen);
}

/// Under fixed windows, what a segmenter answered does not count.
pub proof fn law_fixed_windows_take_no_atoms(list: Seq<Option<Vec<CstAtom>>>, atoms: Option<Seq<AtomModel>>)
    ensures
        step_atoms(list, ChunkMode::Fixed) == no_atoms(),
        atoms_under(ChunkMode::Fixed, atoms) is None,
{
    assert(step_atoms(list, ChunkMode::Fixed) =~= no_atoms());
}

} // verus!
