//! Laws of observations: what every chunk says of where it comes from, and how the chunks of a
//! text follow from its parts.
use vstd::prelude::*;

use crate::chunk::{new_chunk, reweighed, ChunkMode, ChunkModel};
use crate::chunking::{assistant_chunks, atom_chunks, atom_source, bare_chunks, chunks_through, first_hit, group_chunks, hit_chunk, lemma_first_hit, lf, line_texts, numbered_content, observation_chunks, read_chunks, search_chunks, segmenter_input, step_atoms, steps_through, text_chunks, window_len, AtomModel, CstAtom};
use crate::command::{exit_status, file_of, first_line, kind_of, KindModel};
use crate::grep::grep_candidate;
use crate::laws::chunks::{carries, law_accumulated_chunks_are_in_step_order, law_observation_chunks_carry_their_step, law_text_chunks_are_weighed, lemma_filter_pure, weighed, window_size};
use crate::laws::coverage::{content_lines, law_numbered_lines_are_the_content};
use crate::pystr::{has_content, splitlines};
use crate::text::{join, starts_with};

verus! {

/// What every chunk of a list says of its file and its kind.
pub open spec fn all_marked(list: Seq<ChunkModel>, file: Option<Seq<char>>, kind: Seq<char>) -> bool {
    forall|i: int| 0 <= i < list.len() ==> (#[trigger] list[i]).file == file && list[i].kind == kind
}

/// The windows of a file name it.
proof fn lemma_read_marked(lines: Seq<Seq<char>>, file: Option<Seq<char>>, base: int, win: nat, step: i64)
    ensures
        all_marked(read_chunks(lines, file, base, win, step), file, "read"@),
    decreases lines.len(),
{
    if lines.len() > 0 {
        let n = window_len(win, lines.len()) as int;
        let rest = read_chunks(lines.skip(n), file, base + n, win, step);
        let all = read_chunks(lines, file, base, win, step);
        lemma_read_marked(lines.skip(n), file, base + n, win, step);
        assert forall|i: int| 0 <= i < all.len() implies (#[trigger] all[i]).file == file && all[i].kind == "read"@ by {
            if i > 0 {
                assert(all[i] == rest[i - 1]);
            }
        }
    }
}

/// Groups of lines of a file name it.
proof fn lemma_groups_marked(lines: Seq<(i64, Seq<char>)>, file: Option<Seq<char>>, size: nat, step: i64)
    ensures
        all_marked(group_chunks(lines, file, size, step), file, "read"@),
    decreases lines.len(),
{
    if lines.len() > 0 {
        let n = window_len(size, lines.len()) as int;
        let rest = group_chunks(lines.skip(n), file, size, step);
        let all = group_chunks(lines, file, size, step);
        lemma_groups_marked(lines.skip(n), file, size, step);
        assert forall|i: int| 0 <= i < all.len() implies (#[trigger] all[i]).file == file && all[i].kind == "read"@ by {
            if i > 0 {
                assert(all[i] == rest[i - 1]);
            }
        }
    }
}

/// Windows of text name no file.
proof fn lemma_text_marked(lines: Seq<Seq<char>>, win: nat, step: i64, kind: Seq<char>)
    ensures
        all_marked(text_chunks(lines, win, step, kind), None, kind),
    decreases lines.len(),
{
    if lines.len() > 0 {
        let n = window_len(win, lines.len()) as int;
        let rest = text_chunks(lines.skip(n), win, step, kind);
        let all = text_chunks(lines, win, step, kind);
        lemma_text_marked(lines.skip(n), win, step, kind);
        assert forall|i: int| 0 <= i < all.len() implies (#[trigger] all[i]).file is None && all[i].kind == kind by {
            if has_content(join(lines.take(n), lf())) {
                if i > 0 {
                    assert(all[i] == rest[i - 1]);
                }
            } else {
                assert(all[i] == rest[i]);
            }
        }
    }
}

/// Every chunk of the output of a command that reads a file is of the kind `read` and names that
/// file: the base name of the command's first word with a suffix. This holds of windows, of groups
/// of lines and of the atoms of a segmenter.
pub proof fn law_read_chunks_name_their_file(
    cmd: Seq<char>,
    obs: Seq<char>,
    step: i64,
    win: nat,
    read_lines: Option<usize>,
    atoms: Option<Seq<AtomModel>>,
)
    requires
        kind_of(cmd) is Read,
    ensures
        forall|i: int|
            0 <= i < observation_chunks(cmd, obs, step, win, read_lines, atoms).len() ==> {
                &&& (#[trigger] observation_chunks(cmd, obs, step, win, read_lines, atoms)[i]).file == file_of(cmd)
                &&& observation_chunks(cmd, obs, step, win, read_lines, atoms)[i].kind == "read"@
            },
{
    let lines = splitlines(obs);
    let file = file_of(cmd);
    let base = first_line(cmd) as int;
    let content = numbered_content(lines, base);
    let bare = bare_chunks(kind_of(cmd), obs, step, win, read_lines, atoms);
    let all = observation_chunks(cmd, obs, step, win, read_lines, atoms);
    lemma_read_marked(lines, file, base, win, step);
    if let Some(size) = read_lines {
        lemma_groups_marked(content, file, size as nat, step);
        if let Some(found) = atoms {
            assert(all_marked(atom_chunks(found, file, step), file, "read"@));
        }
    }
    assert(all_marked(bare, file, "read"@));
    assert forall|i: int| 0 <= i < all.len() implies (#[trigger] all[i]).file == file && all[i].kind == "read"@ by {
        assert(bare[i].file == file);
    }
}

/// Every chunk of output that is no read and no search is of the kind `other` and has no file and
/// no lines.
pub proof fn law_other_chunks_name_no_file(
    cmd: Seq<char>,
    obs: Seq<char>,
    step: i64,
    win: nat,
    read_lines: Option<usize>,
    atoms: Option<Seq<AtomModel>>,
)
    requires
        kind_of(cmd) is Other,
    ensures
        forall|i: int| #![trigger observation_chunks(cmd, obs, step, win, read_lines, atoms)[i]]
            0 <= i < observation_chunks(cmd, obs, step, win, read_lines, atoms).len() ==> {
                let c = observation_chunks(cmd, obs, step, win, read_lines, atoms)[i];
                &&& c.file is None
                &&& c.lo is None
                &&& c.hi is None
                &&& c.kind == "other"@
            },
{
    let lines = splitlines(obs);
    let bare = bare_chunks(kind_of(cmd), obs, step, win, read_lines, atoms);
    let all = observation_chunks(cmd, obs, step, win, read_lines, atoms);
    lemma_text_placeless(lines, win, step, "other"@);
    lemma_text_marked(lines, win, step, "other"@);
    assert forall|i: int| #![trigger all[i]] 0 <= i < all.len() implies {
        let c = all[i];
        &&& c.file is None
        &&& c.lo is None
        &&& c.hi is None
        &&& c.kind == "other"@
    } by {
        assert(bare[i].file is None && bare[i].lo is None);
    }
}

/// Windows of text have no lines.
proof fn lemma_text_placeless(lines: Seq<Seq<char>>, win: nat, step: i64, kind: Seq<char>)
    ensures
        forall|i: int| #![trigger text_chunks(lines, win, step, kind)[i]]
            0 <= i < text_chunks(lines, win, step, kind).len() ==> {
                &&& text_chunks(lines, win, step, kind)[i].lo is None
                &&& text_chunks(lines, win, step, kind)[i].hi is None
                &&& text_chunks(lines, win, step, kind)[i].struct_class.len() == 0
            },
    decreases lines.len(),
{
    if lines.len() > 0 {
        let n = window_len(win, lines.len()) as int;
        let rest = text_chunks(lines.skip(n), win, step, kind);
        let all = text_chunks(lines, win, step, kind);
        lemma_text_placeless(lines.skip(n), win, step, kind);
        assert forall|i: int| #![trigger all[i]] 0 <= i < all.len() implies {
            &&& all[i].lo is None
            &&& all[i].hi is None
            &&& all[i].struct_class.len() == 0
        } by {
            if has_content(join(lines.take(n), lf())) {
                if i > 0 {
                    assert(all[i] == rest[i - 1]);
                }
            } else {
                assert(all[i] == rest[i]);
            }
        }
    }
}

/// The chunk of a hit: the line itself, with the file and the line that it names.
pub open spec fn hit_of(c: ChunkModel, line: Seq<char>, step: i64) -> bool {
    &&& c.text == line
    &&& c.kind == "grep"@
    &&& grep_candidate(line) is Some
    &&& c.file == Some((grep_candidate(line)->0).0)
    &&& c.lo == (grep_candidate(line)->0).1
    &&& c.hi == (grep_candidate(line)->0).1
    &&& c.step == step
    &&& c.evict == "content"@
    &&& c.struct_class.len() == 0
}

/// A hit divides the output of a search: what stands before it and what stands after it are chunked
/// as if they were alone, and the hit is a chunk of its own between them. Output without hits is
/// windowed.
pub proof fn law_hits_divide_a_search(
    before: Seq<Seq<char>>,
    line: Seq<char>,
    after: Seq<Seq<char>>,
    win: nat,
    step: i64,
)
    requires
        grep_candidate(line) is Some,
    ensures
        ({
            let all = search_chunks(before + seq![line] + after, win, step);
            let first = search_chunks(before, win, step);
            &&& all.len() == first.len() + 1 + search_chunks(after, win, step).len()
            &&& all == first + seq![all[first.len() as int]] + search_chunks(after, win, step)
            &&& hit_of(all[first.len() as int], line, step)
        }),
        (forall|i: int| 0 <= i < before.len() ==> grep_candidate(#[trigger] before[i]) is None) ==> search_chunks(
            before,
            win,
            step,
        ) == text_chunks(before, win, step, "other"@),
    decreases before.len(),
{
    let lines = before + seq![line] + after;
    let all = search_chunks(lines, win, step);
    let first = search_chunks(before, win, step);
    let last = search_chunks(after, win, step);
    let k = first_hit(before);
    lemma_first_hit(before);
    lemma_first_hit(lines);
    if k >= before.len() {
        lemma_first_hit_at(lines, k);
        assert(lines.take(k) =~= before);
        assert(lines[k] == line);
        assert(lines.skip(k + 1) =~= after);
        assert(all =~= first + seq![all[first.len() as int]] + last);
    } else {
        assert(lines[k] == before[k]);
        lemma_first_hit_at(lines, k);
        assert(lines.take(k) =~= before.take(k));
        let more = before.skip(k + 1);
        assert(lines.skip(k + 1) =~= more + seq![line] + after);
        law_hits_divide_a_search(more, line, after, win, step);
        let start = text_chunks(before.take(k), win, step, "other"@) + seq![
            hit_chunk(before[k], step),
        ];
        let later = search_chunks(more + seq![line] + after, win, step);
        let middle = search_chunks(more, win, step);
        assert(all =~= start + later);
        assert(first =~= start + middle);
        assert(all[first.len() as int] == later[middle.len() as int]);
        assert(all =~= first + seq![all[first.len() as int]] + last);
    }
}

/// The first hit, by what stands before it.
proof fn lemma_first_hit_at(lines: Seq<Seq<char>>, k: int)
    requires
        0 <= k < lines.len(),
        grep_candidate(lines[k]) is Some,
        forall|i: int| 0 <= i < k ==> grep_candidate(#[trigger] lines[i]) is None,
    ensures
        first_hit(lines) == k,
{
    lemma_first_hit(lines);
    let f = first_hit(lines);
    if f < k {
        assert(grep_candidate(lines[f]) is None);
    } else if k < f {
        assert(grep_candidate(lines[k]) is None);
    }
}

/// A chunk of the output of a search: a hit on a line, or text without a file.
pub open spec fn found_or_other(c: ChunkModel, lines: Seq<Seq<char>>, step: i64) -> bool {
    ||| (exists|i: int| 0 <= i < lines.len() && hit_of(c, #[trigger] lines[i], step))
    ||| c.kind == "other"@ && c.file is None && c.lo is None && c.hi is None
}

/// The chunks of a search are hits and text without a file.
proof fn lemma_search_marked(lines: Seq<Seq<char>>, win: nat, step: i64)
    ensures
        forall|i: int|
            0 <= i < search_chunks(lines, win, step).len() ==> found_or_other(
                #[trigger] search_chunks(lines, win, step)[i],
                lines,
                step,
            ),
    decreases lines.len(),
{
    let k = first_hit(lines);
    lemma_first_hit(lines);
    let all = search_chunks(lines, win, step);
    if k >= lines.len() {
        lemma_text_marked(lines, win, step, "other"@);
        lemma_text_placeless(lines, win, step, "other"@);
    } else {
        let a = text_chunks(lines.take(k), win, step, "other"@);
        let later = lines.skip(k + 1);
        let c = search_chunks(later, win, step);
        lemma_text_marked(lines.take(k), win, step, "other"@);
        lemma_text_placeless(lines.take(k), win, step, "other"@);
        lemma_search_marked(later, win, step);
        assert forall|i: int| 0 <= i < all.len() implies found_or_other(#[trigger] all[i], lines, step) by {
            if i < a.len() {
                assert(all[i] == a[i]);
            } else if i == a.len() {
                assert(hit_of(all[i], lines[k], step));
            } else {
                let d = c[i - a.len() - 1];
                assert(all[i] == d);
                assert(found_or_other(d, later, step));
                if !(d.kind == "other"@ && d.file is None && d.lo is None && d.hi is None) {
                    let j = choose|j: int| 0 <= j < later.len() && hit_of(d, #[trigger] later[j], step);
                    assert(lines[k + 1 + j] == later[j]);
                    assert(hit_of(d, lines[k + 1 + j], step));
                }
            }
        }
    }
}

/// Every chunk of the output of a search is the hit on one of its lines, with the file and the line
/// that this names, or text of the kind `other` without a file.
pub proof fn law_search_chunks_are_hits_or_other(
    cmd: Seq<char>,
    obs: Seq<char>,
    step: i64,
    win: nat,
    read_lines: Option<usize>,
    atoms: Option<Seq<AtomModel>>,
)
    requires
        kind_of(cmd) is Search,
    ensures
        forall|i: int|
            0 <= i < observation_chunks(cmd, obs, step, win, read_lines, atoms).len() ==> found_or_other(
                #[trigger] observation_chunks(cmd, obs, step, win, read_lines, atoms)[i],
                splitlines(obs),
                step,
            ),
{
    let lines = splitlines(obs);
    let bare = bare_chunks(kind_of(cmd), obs, step, win, read_lines, atoms);
    let all = observation_chunks(cmd, obs, step, win, read_lines, atoms);
    lemma_search_marked(lines, win, step);
    assert forall|i: int| 0 <= i < all.len() implies found_or_other(#[trigger] all[i], lines, step) by {
        assert(found_or_other(bare[i], lines, step));
        if exists|j: int| 0 <= j < lines.len() && hit_of(bare[i], #[trigger] lines[j], step) {
            let j = choose|j: int| 0 <= j < lines.len() && hit_of(bare[i], #[trigger] lines[j], step);
            assert(hit_of(all[i], lines[j], step));
        }
    }
}

/// The chunks of an observation, without what they carry of their step, are those of its lines: for
/// a search the hits and windows, for a read the windows or groups of the file, and otherwise the
/// windows of the text. The texts, places and files stay as they are; where there are none, the
/// whole observation is the one chunk.
pub proof fn law_observation_chunks_are_those_of_the_lines(
    cmd: Seq<char>,
    obs: Seq<char>,
    step: i64,
    win: nat,
    read_lines: Option<usize>,
)
    ensures
        ({
            let lines = splitlines(obs);
            let list = match kind_of(cmd) {
                KindModel::Search => search_chunks(lines, win, step),
                KindModel::Read { file, base } => match read_lines {
                    Some(size) => group_chunks(numbered_content(lines, base as int), file, size as nat, step),
                    None => read_chunks(lines, file, base as int, win, step),
                },
                KindModel::Other => text_chunks(lines, win, step, "other"@),
            };
            let all = observation_chunks(cmd, obs, step, win, read_lines, None);
            &&& list.len() > 0 ==> all.len() == list.len() && forall|i: int| #![trigger all[i]]
                0 <= i < all.len() ==> same_piece(all[i], list[i])
            &&& list.len() == 0 ==> all.len() == 1 && all[0].text == obs && all[0].lo is None && all[0].hi is None
        }),
{
    let bare = bare_chunks(kind_of(cmd), obs, step, win, read_lines, None);
    let all = observation_chunks(cmd, obs, step, win, read_lines, None);
    assert(forall|i: int| #![trigger all[i]] 0 <= i < all.len() ==> same_piece(all[i], bare[i]));
}

/// The same piece of text, from the same place.
pub open spec fn same_piece(c: ChunkModel, d: ChunkModel) -> bool {
    &&& c.text == d.text
    &&& c.file == d.file
    &&& c.lo == d.lo
    &&& c.hi == d.hi
    &&& c.step == d.step
    &&& c.kind == d.kind
    &&& c.tokens == d.tokens
    &&& c.evict == d.evict
    &&& c.struct_class == d.struct_class
}

/// Windows of text follow from the lines: a full window and what follows it are chunked one after
/// the other, and no more lines than a window holds are one chunk, if they have content.
pub proof fn law_windows_of_parts(a: Seq<Seq<char>>, b: Seq<Seq<char>>, win: nat, step: i64, kind: Seq<char>)
    requires
        0 < a.len() <= window_size(win),
    ensures
        a.len() == window_size(win) ==> text_chunks(a + b, win, step, kind) == text_chunks(a, win, step, kind)
            + text_chunks(b, win, step, kind),
        has_content(join(a, lf())) ==> {
            &&& text_chunks(a, win, step, kind).len() == 1
            &&& text_chunks(a, win, step, kind)[0].text == join(a, lf())
        },
        !has_content(join(a, lf())) ==> text_chunks(a, win, step, kind).len() == 0,
{
    assert(a.take(a.len() as int) =~= a);
    assert(a.skip(a.len() as int) =~= seq![]);
    assert(text_chunks(a.skip(a.len() as int), win, step, kind) =~= seq![]);
    if a.len() == window_size(win) {
        assert((a + b).take(a.len() as int) =~= a);
        assert((a + b).skip(a.len() as int) =~= b);
        assert(text_chunks(a + b, win, step, kind) =~= text_chunks(a, win, step, kind) + text_chunks(
            b,
            win,
            step,
            kind,
        ));
    }
}

/// Windows of a file follow from the lines: a full window and what follows it are chunked one after
/// the other, with the numbers going on, and no more lines than a window holds are one chunk, blank
/// or not, with the numbers of the first and the last of them.
pub proof fn law_read_windows_of_parts(
    a: Seq<Seq<char>>,
    b: Seq<Seq<char>>,
    file: Option<Seq<char>>,
    base: i64,
    win: nat,
    step: i64,
)
    requires
        0 < a.len() <= window_size(win),
    ensures
        a.len() == window_size(win) ==> read_chunks(a + b, file, base as int, win, step) == read_chunks(
            a,
            file,
            base as int,
            win,
            step,
        ) + read_chunks(b, file, base + a.len(), win, step),
        read_chunks(a, file, base as int, win, step).len() == 1,
        read_chunks(a, file, base as int, win, step)[0].text == join(a, lf()),
        read_chunks(a, file, base as int, win, step)[0].lo == Some(base),
        base + a.len() - 1 <= i64::MAX ==> read_chunks(a, file, base as int, win, step)[0].hi == Some(
            (base + a.len() - 1) as i64,
        ),
        base + a.len() - 1 > i64::MAX ==> read_chunks(a, file, base as int, win, step)[0].hi == Some(i64::MAX),
{
    let n = a.len() as int;
    let base_int = base as int;
    assert(a.take(n) =~= a);
    assert(a.skip(n) =~= seq![]);
    assert(read_chunks(a.skip(n), file, base_int + n, win, step) =~= seq![]);
    if a.len() == window_size(win) {
        assert((a + b).take(n) =~= a);
        assert((a + b).skip(n) =~= b);
        assert(read_chunks(a + b, file, base_int, win, step) =~= read_chunks(a, file, base_int, win, step)
            + read_chunks(b, file, base_int + n, win, step));
    }
}

/// Groups of lines follow from the lines: a full group and what follows it are chunked one after
/// the other, and no more lines than a group holds are one chunk, with the numbers of the first and
/// the last of them.
pub proof fn law_groups_of_parts(
    a: Seq<(i64, Seq<char>)>,
    b: Seq<(i64, Seq<char>)>,
    file: Option<Seq<char>>,
    size: nat,
    step: i64,
)
    requires
        0 < a.len() <= window_size(size),
    ensures
        a.len() == window_size(size) ==> group_chunks(a + b, file, size, step) == group_chunks(a, file, size, step)
            + group_chunks(b, file, size, step),
        group_chunks(a, file, size, step).len() == 1,
        group_chunks(a, file, size, step)[0].text == join(line_texts(a), lf()),
        group_chunks(a, file, size, step)[0].lo == Some(a[0].0),
        group_chunks(a, file, size, step)[0].hi == Some(a.last().0),
        group_chunks(a, file, size, step)[0].file == file,
{
    let n = a.len() as int;
    assert(a.take(n) =~= a);
    assert(a.skip(n) =~= seq![]);
    assert(group_chunks(a.skip(n), file, size, step) =~= seq![]);
    if a.len() == window_size(size) {
        assert((a + b).take(n) =~= a);
        assert((a + b).skip(n) =~= b);
        assert((a + b)[0] == a[0] && (a + b)[n - 1] == a[n - 1]);
        assert(group_chunks(a + b, file, size, step) =~= group_chunks(a, file, size, step) + group_chunks(
            b,
            file,
            size,
            step,
        ));
    }
}

/// A token for every four characters of a text, rounded down, but one at least, and no more than
/// `i64` holds.
pub open spec fn quarter(tokens: i64, text: Seq<char>) -> bool {
    if text.len() < 4 {
        tokens == 1
    } else if text.len() / 4 <= i64::MAX {
        4 * tokens <= text.len() < 4 * tokens + 4
    } else {
        tokens == i64::MAX
    }
}

/// A new chunk has the parts that it was made of, the weight of its text, and nothing else.
pub proof fn law_new_chunk_keeps_its_parts(
    text: Seq<char>,
    file: Option<Seq<char>>,
    lo: Option<i64>,
    hi: Option<i64>,
    step: i64,
    kind: Seq<char>,
)
    ensures
        ({
            let c = new_chunk(text, file, lo, hi, step, kind);
            &&& c.text == text
            &&& c.file == file
            &&& c.lo == lo
            &&& c.hi == hi
            &&& c.step == step
            &&& c.kind == kind
            &&& quarter(c.tokens, text)
            &&& c.evict == "content"@
            &&& c.cmd.len() == 0
            &&& c.rc is None
            &&& c.head.len() == 0
            &&& c.struct_class.len() == 0
        }),
{
}

/// Every chunk of a list weighs what its text does.
pub open spec fn all_quarter(list: Seq<ChunkModel>) -> bool {
    forall|i: int| 0 <= i < list.len() ==> quarter((#[trigger] list[i]).tokens, list[i].text)
}

/// What holds of two lists holds of one after the other.
proof fn lemma_quarter_concat(a: Seq<ChunkModel>, b: Seq<ChunkModel>)
    requires
        all_quarter(a),
        all_quarter(b),
    ensures
        all_quarter(a + b),
{
    assert forall|i: int| 0 <= i < (a + b).len() implies quarter((#[trigger] (a + b)[i]).tokens, (a + b)[i].text) by {
        if i < a.len() {
            assert((a + b)[i] == a[i]);
        } else {
            assert((a + b)[i] == b[i - a.len()]);
        }
    }
}

/// Windows of text weigh what their texts do.
pub proof fn law_text_chunks_weigh_their_text(lines: Seq<Seq<char>>, win: nat, step: i64, kind: Seq<char>)
    ensures
        all_quarter(text_chunks(lines, win, step, kind)),
    decreases lines.len(),
{
    if lines.len() > 0 {
        let n = window_len(win, lines.len()) as int;
        let all = text_chunks(lines, win, step, kind);
        law_text_chunks_weigh_their_text(lines.skip(n), win, step, kind);
        if has_content(join(lines.take(n), lf())) {
            lemma_quarter_concat(seq![all[0]], text_chunks(lines.skip(n), win, step, kind));
        }
    }
}

/// The chunks of a search weigh what their texts do.
proof fn lemma_search_quarter(lines: Seq<Seq<char>>, win: nat, step: i64)
    ensures
        all_quarter(search_chunks(lines, win, step)),
    decreases lines.len(),
{
    let k = first_hit(lines);
    lemma_first_hit(lines);
    if k >= lines.len() {
        law_text_chunks_weigh_their_text(lines, win, step, "other"@);
    } else {
        let a = text_chunks(lines.take(k), win, step, "other"@);
        let b = seq![hit_chunk(lines[k], step)];
        law_text_chunks_weigh_their_text(lines.take(k), win, step, "other"@);
        lemma_search_quarter(lines.skip(k + 1), win, step);
        lemma_quarter_concat(a, b);
        lemma_quarter_concat(a + b, search_chunks(lines.skip(k + 1), win, step));
    }
}

/// The windows of a file weigh what their texts do.
proof fn lemma_read_quarter(lines: Seq<Seq<char>>, file: Option<Seq<char>>, base: int, win: nat, step: i64)
    ensures
        all_quarter(read_chunks(lines, file, base, win, step)),
    decreases lines.len(),
{
    if lines.len() > 0 {
        let n = window_len(win, lines.len()) as int;
        let all = read_chunks(lines, file, base, win, step);
        lemma_read_quarter(lines.skip(n), file, base + n, win, step);
        lemma_quarter_concat(seq![all[0]], read_chunks(lines.skip(n), file, base + n, win, step));
    }
}

/// Groups of lines weigh what their texts do.
proof fn lemma_groups_quarter(lines: Seq<(i64, Seq<char>)>, file: Option<Seq<char>>, size: nat, step: i64)
    ensures
        all_quarter(group_chunks(lines, file, size, step)),
    decreases lines.len(),
{
    if lines.len() > 0 {
        let n = window_len(size, lines.len()) as int;
        let all = group_chunks(lines, file, size, step);
        lemma_groups_quarter(lines.skip(n), file, size, step);
        lemma_quarter_concat(seq![all[0]], group_chunks(lines.skip(n), file, size, step));
    }
}

/// The text starts another and is as long as `n`, or all of it.
pub open spec fn head_of(head: Seq<char>, text: Seq<char>, n: nat) -> bool {
    &&& starts_with(text, head)
    &&& head.len() == if n < text.len() {
        n
    } else {
        text.len()
    }
}

/// Every chunk of an observation weighs a token for every four characters of its text, carries the
/// first 300 characters of its command and the first 240 of its observation, the exit status and
/// its step, and is evicted by content.
pub proof fn law_observation_chunks_carry_their_origin(
    cmd: Seq<char>,
    obs: Seq<char>,
    step: i64,
    win: nat,
    read_lines: Option<usize>,
    atoms: Option<Seq<AtomModel>>,
)
    ensures
        forall|i: int| #![trigger observation_chunks(cmd, obs, step, win, read_lines, atoms)[i]]
            0 <= i < observation_chunks(cmd, obs, step, win, read_lines, atoms).len() ==> {
                let c = observation_chunks(cmd, obs, step, win, read_lines, atoms)[i];
                &&& quarter(c.tokens, c.text)
                &&& head_of(c.cmd, cmd, 300)
                &&& head_of(c.head, obs, 240)
                &&& c.rc == exit_status(obs)
                &&& c.step == step
                &&& c.evict == "content"@
            },
{
    let lines = splitlines(obs);
    let kind = kind_of(cmd);
    let bare = bare_chunks(kind, obs, step, win, read_lines, atoms);
    let all = observation_chunks(cmd, obs, step, win, read_lines, atoms);
    law_observation_chunks_carry_their_step(cmd, obs, step, win, read_lines, atoms);
    match kind {
        KindModel::Search => {
            lemma_search_quarter(lines, win, step);
        },
        KindModel::Read { file, base } => {
            let content = numbered_content(lines, base as int);
            lemma_read_quarter(lines, file, base as int, win, step);
            if let Some(size) = read_lines {
                lemma_groups_quarter(content, file, size as nat, step);
                if let Some(found) = atoms {
                    assert(all_quarter(atom_chunks(found, file, step)));
                }
            }
        },
        KindModel::Other => {
            law_text_chunks_weigh_their_text(lines, win, step, "other"@);
        },
    }
    assert(all_quarter(bare));
    assert forall|i: int| #![trigger all[i]] 0 <= i < all.len() implies {
        let c = all[i];
        &&& quarter(c.tokens, c.text)
        &&& head_of(c.cmd, cmd, 300)
        &&& head_of(c.head, obs, 240)
        &&& c.rc == exit_status(obs)
        &&& c.step == step
        &&& c.evict == "content"@
    } by {
        assert(quarter(bare[i].tokens, bare[i].text));
        assert(carries(all[i], cmd, obs, step));
        assert(cmd.take(cmd.len() as int) =~= cmd);
        assert(obs.take(obs.len() as int) =~= obs);
    }
}

/// Where a segmenter's answer counts, its atoms are the chunks, one for one: with the text, the
/// lines and the class of the atom, and the file that was read.
pub proof fn law_atoms_are_the_chunks(
    cmd: Seq<char>,
    obs: Seq<char>,
    step: i64,
    win: nat,
    size: usize,
    atoms: Seq<AtomModel>,
)
    requires
        kind_of(cmd) is Read,
        content_lines(splitlines(obs)).len() > 0,
        atoms.len() > 0,
    ensures
        observation_chunks(cmd, obs, step, win, Some(size), Some(atoms)).len() == atoms.len(),
        forall|i: int| #![trigger atoms[i]]
            0 <= i < atoms.len() ==> {
                let c = observation_chunks(cmd, obs, step, win, Some(size), Some(atoms))[i];
                &&& c.text == atoms[i].text
                &&& c.lo == Some(atoms[i].lo)
                &&& c.hi == Some(atoms[i].hi)
                &&& c.struct_class == atoms[i].class
                &&& c.file == file_of(cmd)
                &&& c.kind == "read"@
            },
{
    let base = first_line(cmd) as int;
    law_numbered_lines_are_the_content(splitlines(obs), base);
    assert(numbered_content(splitlines(obs), base).len() == line_texts(numbered_content(splitlines(obs), base)).len());
    assert(bare_chunks(kind_of(cmd), obs, step, win, Some(size), Some(atoms)) == atom_chunks(
        atoms,
        file_of(cmd),
        step,
    ));
}

/// Without atoms no chunk has a class, and an answer of `None` gives what grouping gives.
pub proof fn law_without_atoms_there_is_no_class(
    cmd: Seq<char>,
    obs: Seq<char>,
    step: i64,
    win: nat,
    read_lines: Option<usize>,
)
    ensures
        forall|i: int|
            0 <= i < observation_chunks(cmd, obs, step, win, read_lines, None).len() ==> (#[trigger] observation_chunks(
                cmd,
                obs,
                step,
                win,
                read_lines,
                None,
            )[i]).struct_class.len() == 0,
{
    let lines = splitlines(obs);
    let kind = kind_of(cmd);
    let bare = bare_chunks(kind, obs, step, win, read_lines, None);
    let all = observation_chunks(cmd, obs, step, win, read_lines, None);
    match kind {
        KindModel::Search => {
            lemma_search_classless(lines, win, step);
        },
        KindModel::Read { file, base } => {
            lemma_read_classless(lines, file, base as int, win, step);
            if let Some(size) = read_lines {
                lemma_groups_classless(numbered_content(lines, base as int), file, size as nat, step);
            }
        },
        KindModel::Other => {
            lemma_text_placeless(lines, win, step, "other"@);
        },
    }
    assert forall|i: int| 0 <= i < all.len() implies (#[trigger] all[i]).struct_class.len() == 0 by {
        assert(bare[i].struct_class.len() == 0);
    }
}

/// The chunks of a search have no class.
proof fn lemma_search_classless(lines: Seq<Seq<char>>, win: nat, step: i64)
    ensures
        forall|i: int|
            0 <= i < search_chunks(lines, win, step).len() ==> (#[trigger] search_chunks(lines, win, step)[i]).struct_class.len()
                == 0,
    decreases lines.len(),
{
    let k = first_hit(lines);
    lemma_first_hit(lines);
    let all = search_chunks(lines, win, step);
    if k >= lines.len() {
        lemma_text_placeless(lines, win, step, "other"@);
    } else {
        let a = text_chunks(lines.take(k), win, step, "other"@);
        let c = search_chunks(lines.skip(k + 1), win, step);
        lemma_text_placeless(lines.take(k), win, step, "other"@);
        lemma_search_classless(lines.skip(k + 1), win, step);
        assert forall|i: int| 0 <= i < all.len() implies (#[trigger] all[i]).struct_class.len() == 0 by {
            if i < a.len() {
                assert(all[i] == a[i]);
            } else if i > a.len() {
                assert(all[i] == c[i - a.len() - 1]);
            }
        }
    }
}

/// The windows of a file have no class.
proof fn lemma_read_classless(lines: Seq<Seq<char>>, file: Option<Seq<char>>, base: int, win: nat, step: i64)
    ensures
        forall|i: int|
            0 <= i < read_chunks(lines, file, base, win, step).len() ==> (#[trigger] read_chunks(
                lines,
                file,
                base,
                win,
                step,
            )[i]).struct_class.len() == 0,
    decreases lines.len(),
{
    if lines.len() > 0 {
        let n = window_len(win, lines.len()) as int;
        let rest = read_chunks(lines.skip(n), file, base + n, win, step);
        let all = read_chunks(lines, file, base, win, step);
        lemma_read_classless(lines.skip(n), file, base + n, win, step);
        assert forall|i: int| 0 <= i < all.len() implies (#[trigger] all[i]).struct_class.len() == 0 by {
            if i > 0 {
                assert(all[i] == rest[i - 1]);
            }
        }
    }
}

/// Groups of lines have no class.
proof fn lemma_groups_classless(lines: Seq<(i64, Seq<char>)>, file: Option<Seq<char>>, size: nat, step: i64)
    ensures
        forall|i: int|
            0 <= i < group_chunks(lines, file, size, step).len() ==> (#[trigger] group_chunks(lines, file, size, step)[i]).struct_class.len()
                == 0,
    decreases lines.len(),
{
    if lines.len() > 0 {
        let n = window_len(size, lines.len()) as int;
        let rest = group_chunks(lines.skip(n), file, size, step);
        let all = group_chunks(lines, file, size, step);
        lemma_groups_classless(lines.skip(n), file, size, step);
        assert forall|i: int| 0 <= i < all.len() implies (#[trigger] all[i]).struct_class.len() == 0 by {
            if i > 0 {
                assert(all[i] == rest[i - 1]);
            }
        }
    }
}

/// The chunk is of the step `s`.
pub open spec fn of_step(s: int) -> spec_fn(ChunkModel) -> bool {
    |c: ChunkModel| c.step == s
}

/// Filtering keeps a list of which every item counts, and nothing of one of which none does.
pub proof fn lemma_filter_all_or_none(list: Seq<ChunkModel>, p: spec_fn(ChunkModel) -> bool)
    ensures
        (forall|i: int| 0 <= i < list.len() ==> p(#[trigger] list[i])) ==> list.filter(p) == list,
        (forall|i: int| 0 <= i < list.len() ==> !p(#[trigger] list[i])) ==> list.filter(p) == Seq::<ChunkModel>::empty(),
{
    lemma_filter_pure(list, p);
}

/// Of all that an agent has seen, the chunks of a step are those of its observation under its
/// command, by windows of 40 lines.
pub proof fn law_accumulated_chunks_of_a_step(
    steps: Seq<(String, String)>,
    n: nat,
    s: int,
    read_lines: Option<usize>,
    atoms: spec_fn(int) -> Option<Seq<AtomModel>>,
)
    requires
        0 <= s < n <= i64::MAX,
    ensures
        chunks_through(steps, n, read_lines, atoms).filter(of_step(s)) == observation_chunks(
            steps[s].0@,
            steps[s].1@,
            s as i64,
            40,
            read_lines,
            atoms(s),
        ),
    decreases n,
{
    let p = of_step(s);
    let t = n - 1;
    let before = chunks_through(steps, t as nat, read_lines, atoms);
    let added = observation_chunks(steps[t].0@, steps[t].1@, t as i64, 40, read_lines, atoms(t));
    assert(chunks_through(steps, n, read_lines, atoms) == before + added);
    Seq::filter_distributes_over_add(before, added, p);
    law_observation_chunks_carry_their_step(steps[t].0@, steps[t].1@, t as i64, 40, read_lines, atoms(t));
    assert forall|i: int| 0 <= i < added.len() implies (#[trigger] added[i]).step == t by {
        assert(carries(added[i], steps[t].0@, steps[t].1@, t as i64));
    }
    lemma_filter_all_or_none(added, p);
    lemma_filter_all_or_none(before, p);
    if s == t {
        law_accumulated_chunks_are_in_step_order(steps, t as nat, read_lines, atoms);
        assert(Seq::<ChunkModel>::empty() + added =~= added);
    } else {
        law_accumulated_chunks_of_a_step(steps, t as nat, s, read_lines, atoms);
        assert(before.filter(p) + Seq::<ChunkModel>::empty() =~= before.filter(p));
    }
}

/// A segmenter is asked exactly where its answer counts: under `ChunkMode::Cst`, for a read with a
/// group size whose output has content. It is told the file and the lines with content.
pub proof fn law_segmenter_is_asked_for_reads(
    cmd: Seq<char>,
    obs: Seq<char>,
    read_lines: Option<usize>,
    mode: ChunkMode,
)
    ensures
        segmenter_input(cmd, obs, read_lines, mode) is Some <==> mode == ChunkMode::Cst && read_lines is Some && kind_of(
            cmd,
        ) is Read && content_lines(splitlines(obs)).len() > 0,
        segmenter_input(cmd, obs, read_lines, mode) matches Some((file, lines)) ==> {
            &&& file == file_of(cmd)
            &&& line_texts(lines) == content_lines(splitlines(obs))
            &&& lines == numbered_content(splitlines(obs), first_line(cmd) as int)
        },
{
    let base = first_line(cmd) as int;
    law_numbered_lines_are_the_content(splitlines(obs), base);
    assert(line_texts(numbered_content(splitlines(obs), base)).len() == numbered_content(splitlines(obs), base).len());
}

/// The numbered lines of a file follow from its parts: those of two parts are the one's and, with the
/// numbers going on, the other's. A line with content has its number, which is the largest there is
/// from there on, and a blank line is left out.
pub proof fn law_numbered_lines_of_parts(a: Seq<Seq<char>>, b: Seq<Seq<char>>, line: Seq<char>, base: int)
    requires
        i64::MIN <= base,
    ensures
        numbered_content(a + b, base) == numbered_content(a, base) + numbered_content(b, base + a.len()),
        !has_content(line) ==> numbered_content(seq![line], base).len() == 0,
        has_content(line) ==> {
            &&& numbered_content(seq![line], base).len() == 1
            &&& numbered_content(seq![line], base)[0].1 == line
            &&& base <= i64::MAX ==> numbered_content(seq![line], base)[0].0 == base
            &&& base > i64::MAX ==> numbered_content(seq![line], base)[0].0 == i64::MAX
        },
    decreases a.len(),
{
    assert(seq![line].drop_first() =~= seq![]);
    assert(numbered_content(seq![line].drop_first(), base + 1) =~= seq![]);
    if a.len() == 0 {
        assert(a + b =~= b);
        assert(numbered_content(a, base) + numbered_content(b, base) =~= numbered_content(b, base));
    } else {
        law_numbered_lines_of_parts(a.drop_first(), b, line, base + 1);
        assert((a + b).drop_first() =~= a.drop_first() + b);
        assert((a + b)[0] == a[0]);
        assert(numbered_content(a + b, base) =~= numbered_content(a, base) + numbered_content(b, base + a.len()));
    }
}

/// Through a step there are that step and those before it, as far as there are steps.
pub proof fn law_steps_through_a_step(upto: nat, len: nat)
    ensures
        steps_through(upto, len) <= len,
        steps_through(upto, len) <= upto + 1,
        steps_through(upto, len) == len || steps_through(upto, len) == upto + 1,
{
}

/// The atoms of a step are those of the answer for it, under `ChunkMode::Cst`; without an answer there
/// are none.
pub proof fn law_atoms_of_a_step(list: Seq<Option<Vec<CstAtom>>>, s: int)
    ensures
        0 <= s < list.len() && list[s] is Some ==> step_atoms(list, ChunkMode::Cst)(s) == Some(
            Seq::new((list[s]->0)@.len(), |i: int| (list[s]->0)@[i]@),
        ),
        0 <= s < list.len() && list[s] is None ==> step_atoms(list, ChunkMode::Cst)(s) is None,
        !(0 <= s < list.len()) ==> step_atoms(list, ChunkMode::Cst)(s) is None,
{
    if 0 <= s < list.len() && list[s] is Some {
        let want = Seq::new((list[s]->0)@.len(), |i: int| (list[s]->0)@[i]@);
        assert(step_atoms(list, ChunkMode::Cst)(s)->0 =~= want);
    }
}

/// A segmenter's answer counts only for a read with a group size whose output has content; anywhere
/// else the chunks are those without one. An answer without atoms leaves the whole output as the one
/// chunk.
pub proof fn law_atoms_count_only_where_asked(
    cmd: Seq<char>,
    obs: Seq<char>,
    step: i64,
    win: nat,
    read_lines: Option<usize>,
    atoms: Seq<AtomModel>,
)
    ensures
        !(kind_of(cmd) is Read) || read_lines is None || content_lines(splitlines(obs)).len() == 0
            ==> observation_chunks(cmd, obs, step, win, read_lines, Some(atoms)) == observation_chunks(
            cmd,
            obs,
            step,
            win,
            read_lines,
            None,
        ),
        kind_of(cmd) is Read && read_lines is Some && atoms.len() == 0 ==> {
            let all = observation_chunks(cmd, obs, step, win, read_lines, Some(atoms));
            &&& all.len() == 1
            &&& all[0].text == obs
            &&& all[0].lo is None
            &&& all[0].hi is None
            &&& all[0].struct_class.len() == 0
        },
{
    if let KindModel::Read { file, base } = kind_of(cmd) {
        let lines = numbered_content(splitlines(obs), base as int);
        law_numbered_lines_are_the_content(splitlines(obs), base as int);
        assert(line_texts(lines).len() == lines.len());
        if let Some(size) = read_lines {
            assert(atoms.len() == 0 ==> atom_chunks(atoms, file, step) =~= seq![]);
            assert(lines.len() == 0 ==> group_chunks(lines, file, size as nat, step) =~= seq![]);
        }
    }
}

/// A positive weight replaces that of a chunk, any other leaves it, and everything else stays.
pub proof fn law_weight_is_replaced_where_positive(c: ChunkModel, tokens: i64)
    ensures
        tokens > 0 ==> reweighed(c, tokens).tokens == tokens,
        tokens <= 0 ==> reweighed(c, tokens).tokens == c.tokens,
        same_piece(reweighed(c, tokens), (ChunkModel { tokens: reweighed(c, tokens).tokens, ..c })),
        reweighed(c, tokens).cmd == c.cmd,
        reweighed(c, tokens).rc == c.rc,
        reweighed(c, tokens).head == c.head,
{
}

/// An agent's own message follows from its lines: as many as a window holds, and then the rest, are
/// chunked one after the other; no more than that are one chunk of the kind `asst` with all of them,
/// if they have content.
pub proof fn law_assistant_windows_of_parts(txt: Seq<char>, a: Seq<char>, b: Seq<char>, step: i64, win: nat)
    requires
        splitlines(txt) == splitlines(a) + splitlines(b),
        0 < splitlines(a).len() <= window_size(win),
    ensures
        splitlines(a).len() == window_size(win) ==> assistant_chunks(txt, step, win) == assistant_chunks(a, step, win)
            + assistant_chunks(b, step, win),
        has_content(join(splitlines(a), lf())) ==> {
            &&& assistant_chunks(a, step, win).len() == 1
            &&& assistant_chunks(a, step, win)[0].text == join(splitlines(a), lf())
            &&& assistant_chunks(a, step, win)[0].step == step
            &&& assistant_chunks(a, step, win)[0].kind == "asst"@
            &&& assistant_chunks(a, step, win)[0].file is None
        },
        !has_content(join(splitlines(a), lf())) ==> assistant_chunks(a, step, win).len() == 0,
{
    law_windows_of_parts(splitlines(a), splitlines(b), win, step, "asst"@);
    lemma_text_marked(splitlines(a), win, step, "asst"@);
    law_text_chunks_are_weighed(splitlines(a), win, step, "asst"@);
    if has_content(join(splitlines(a), lf())) {
        assert(weighed(assistant_chunks(a, step, win)[0], step));
    }
}

/// What a segmenter works on: the file of the command and all lines of the output that have content,
/// which is what it is asked with.
pub proof fn law_atom_lines_are_the_content(cmd: Seq<char>, obs: Seq<char>, read_lines: Option<usize>, mode: ChunkMode)
    ensures
        atom_source(cmd, obs).0 == file_of(cmd),
        line_texts(atom_source(cmd, obs).1) == content_lines(splitlines(obs)),
        segmenter_input(cmd, obs, read_lines, mode) matches Some(asked) ==> asked == atom_source(cmd, obs),
{
    law_numbered_lines_are_the_content(splitlines(obs), first_line(cmd) as int);
}

} // verus!
