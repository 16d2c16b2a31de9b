//! Slicing observations and messages into chunks, so that no line with content is lost.
use vstd::prelude::*;

pub use crate::chunk::{Chunk, ChunkMode, DEFAULT_WIN};
pub use crate::command::{classify, first_file, obs_rc, sed_base, CommandKind};
pub use crate::grep::{basename, is_path, parse_grep_candidate, parse_line_no};
use crate::chunk::{chunks, new_chunk, ChunkModel};
use crate::command::{exit_status, file_of, first_line, kind_of, KindModel};
use crate::grep::grep_candidate;
use crate::laws::chunks::{has_step, in_step_order, law_accumulated_chunks_are_in_step_order};
use crate::laws::observations::{all_marked, law_read_chunks_name_their_file};
use crate::pystr::{char_prefix, has_content, prefix, py_has_content, py_splitlines, splitlines};
use crate::text::{join, join_range, opt_str, strs};

verus! {

/// The text that separates lines within a chunk.
pub open spec fn lf() -> Seq<char> {
    seq!['\n']
}

/// The line `k` lines after `base`; beyond `i64` it is the largest line there is.
pub open spec fn line_after(base: int, k: int) -> i64 {
    if base + k > i64::MAX {
        i64::MAX
    } else {
        (base + k) as i64
    }
}

/// How many of `len` lines the next window of size `win` takes. A window of no lines is taken as
/// one of a single line.
pub open spec fn window_len(win: nat, len: nat) -> nat {
    let size = if win == 0 {
        1
    } else {
        win
    };
    if size < len {
        size
    } else {
        len
    }
}

/// The windows of `lines` that have content, as chunks.
pub open spec fn text_chunks(lines: Seq<Seq<char>>, win: nat, step: i64, kind: Seq<char>) -> Seq<ChunkModel>
    decreases lines.len(),
{
    if lines.len() == 0 {
        seq![]
    } else {
        let n = window_len(win, lines.len()) as int;
        let text = join(lines.take(n), lf());
        let rest = text_chunks(lines.skip(n), win, step, kind);
        if has_content(text) {
            seq![new_chunk(text, None, None, None, step, kind)] + rest
        } else {
            rest
        }
    }
}

/// The windows of the lines of a file, the first of which has the number `base`.
pub open spec fn read_chunks(
    lines: Seq<Seq<char>>,
    file: Option<Seq<char>>,
    base: int,
    win: nat,
    step: i64,
) -> Seq<ChunkModel>
    decreases lines.len(),
{
    if lines.len() == 0 {
        seq![]
    } else {
        let n = window_len(win, lines.len()) as int;
        seq![
            new_chunk(
                join(lines.take(n), lf()),
                file,
                Some(line_after(base, 0)),
                Some(line_after(base, n - 1)),
                step,
                "read"@,
            ),
        ] + read_chunks(lines.skip(n), file, base + n, win, step)
    }
}

/// The lines of a file that have content, each with its number; the first line has the number
/// `base`.
pub open spec fn numbered_content(lines: Seq<Seq<char>>, base: int) -> Seq<(i64, Seq<char>)>
    decreases lines.len(),
{
    if lines.len() == 0 {
        seq![]
    } else {
        let rest = numbered_content(lines.drop_first(), base + 1);
        if has_content(lines[0]) {
            seq![(line_after(base, 0), lines[0])] + rest
        } else {
            rest
        }
    }
}

/// The texts of numbered lines.
pub open spec fn line_texts(lines: Seq<(i64, Seq<char>)>) -> Seq<Seq<char>> {
    Seq::new(lines.len(), |i: int| lines[i].1)
}

/// Groups of numbered lines, each with the numbers of its first and last line.
pub open spec fn group_chunks(
    lines: Seq<(i64, Seq<char>)>,
    file: Option<Seq<char>>,
    size: nat,
    step: i64,
) -> Seq<ChunkModel>
    decreases lines.len(),
{
    if lines.len() == 0 {
        seq![]
    } else {
        let n = window_len(size, lines.len()) as int;
        seq![
            new_chunk(
                join(line_texts(lines.take(n)), lf()),
                file,
                Some(lines[0].0),
                Some(lines[n - 1].0),
                step,
                "read"@,
            ),
        ] + group_chunks(lines.skip(n), file, size, step)
    }
}

/// An atom that a segmenter found in the lines of a file.
#[derive(Debug, Clone, PartialEq)]
pub struct CstAtom {
    /// Its first line.
    pub lo: i64,
    /// Its last line.
    pub hi: i64,
    /// Its text.
    pub text: String,
    /// The class of its node.
    pub class: String,
}

/// What a `CstAtom` holds.
pub struct AtomModel {
    pub lo: i64,
    pub hi: i64,
    pub text: Seq<char>,
    pub class: Seq<char>,
}

impl View for CstAtom {
    type V = AtomModel;

    open spec fn view(&self) -> AtomModel {
        AtomModel { lo: self.lo, hi: self.hi, text: self.text@, class: self.class@ }
    }
}

/// What the atoms of a list hold, if there is one.
pub open spec fn atoms_of(list: Option<&Vec<CstAtom>>) -> Option<Seq<AtomModel>> {
    match list {
        Some(v) => Some(Seq::new(v@.len(), |i: int| v@[i]@)),
        None => None,
    }
}

/// The chunk of an atom.
pub open spec fn atom_chunk(atom: AtomModel, file: Option<Seq<char>>, step: i64) -> ChunkModel {
    ChunkModel {
        struct_class: atom.class,
        ..new_chunk(atom.text, file, Some(atom.lo), Some(atom.hi), step, "read"@)
    }
}

/// The chunks of atoms.
pub open spec fn atom_chunks(atoms: Seq<AtomModel>, file: Option<Seq<char>>, step: i64) -> Seq<ChunkModel> {
    Seq::new(atoms.len(), |i: int| atom_chunk(atoms[i], file, step))
}

/// The index of the first line that is a result of a search, or the number of lines.
pub open spec fn first_hit(lines: Seq<Seq<char>>) -> int
    decreases lines.len(),
{
    if lines.len() == 0 || grep_candidate(lines[0]) is Some {
        0
    } else {
        1 + first_hit(lines.drop_first())
    }
}

/// The chunk of a result line.
pub open spec fn hit_chunk(line: Seq<char>, step: i64) -> ChunkModel {
    let hit = grep_candidate(line)->0;
    new_chunk(line, Some(hit.0), hit.1, hit.1, step, "grep"@)
}

/// The output of a search: each result line is a chunk, and the lines between results are windowed.
pub open spec fn search_chunks(lines: Seq<Seq<char>>, win: nat, step: i64) -> Seq<ChunkModel>
    decreases lines.len(),
{
    let k = first_hit(lines);
    proof {
        lemma_first_hit(lines);
    }
    if k >= lines.len() {
        text_chunks(lines, win, step, "other"@)
    } else {
        text_chunks(lines.take(k), win, step, "other"@) + seq![hit_chunk(lines[k], step)]
            + search_chunks(lines.skip(k + 1), win, step)
    }
}

/// `list`, or the whole observation as one chunk where that is empty.
pub open spec fn or_raw(
    list: Seq<ChunkModel>,
    obs: Seq<char>,
    file: Option<Seq<char>>,
    step: i64,
    kind: Seq<char>,
) -> Seq<ChunkModel> {
    if list.len() == 0 {
        seq![new_chunk(obs, file, None, None, step, kind)]
    } else {
        list
    }
}

/// The chunks of an observation by windows of `win` lines.
pub open spec fn window_chunks(kind: KindModel, obs: Seq<char>, step: i64, win: nat) -> Seq<ChunkModel> {
    let lines = splitlines(obs);
    match kind {
        KindModel::Search => or_raw(search_chunks(lines, win, step), obs, None, step, "other"@),
        KindModel::Read { file, base } => or_raw(
            read_chunks(lines, file, base as int, win, step),
            obs,
            file,
            step,
            "read"@,
        ),
        KindModel::Other => or_raw(text_chunks(lines, win, step, "other"@), obs, None, step, "other"@),
    }
}

/// The chunks of a file that was read, by its lines with content: the atoms that a segmenter
/// found, or groups of `size` lines.
pub open spec fn line_chunks(
    file: Option<Seq<char>>,
    base: i64,
    obs: Seq<char>,
    step: i64,
    size: nat,
    atoms: Option<Seq<AtomModel>>,
) -> Seq<ChunkModel> {
    let lines = numbered_content(splitlines(obs), base as int);
    let list = match atoms {
        Some(found) if lines.len() > 0 => atom_chunks(found, file, step),
        _ => group_chunks(lines, file, size, step),
    };
    or_raw(list, obs, file, step, "read"@)
}

/// The chunks of an observation before they carry its command, status and head.
pub open spec fn bare_chunks(
    kind: KindModel,
    obs: Seq<char>,
    step: i64,
    win: nat,
    read_lines: Option<usize>,
    atoms: Option<Seq<AtomModel>>,
) -> Seq<ChunkModel> {
    match (kind, read_lines) {
        (KindModel::Read { file, base }, Some(size)) => line_chunks(file, base, obs, step, size as nat, atoms),
        _ => window_chunks(kind, obs, step, win),
    }
}

/// How much of its command a chunk carries.
pub const CMD_HEAD: usize = 300;

/// How much of its observation a chunk carries.
pub const OBS_HEAD: usize = 240;

/// A chunk that carries its command, status and the head of its observation.
pub open spec fn stamped(c: ChunkModel, cmd: Seq<char>, rc: Option<i64>, obs: Seq<char>) -> ChunkModel {
    ChunkModel { cmd: prefix(cmd, CMD_HEAD as int), rc, head: prefix(obs, OBS_HEAD as int), ..c }
}

/// Chunks that carry their command, status and the head of their observation.
pub open spec fn all_stamped(
    list: Seq<ChunkModel>,
    cmd: Seq<char>,
    rc: Option<i64>,
    obs: Seq<char>,
) -> Seq<ChunkModel> {
    Seq::new(list.len(), |i: int| stamped(list[i], cmd, rc, obs))
}

/// The atoms that count under `mode`.
pub open spec fn atoms_under(mode: ChunkMode, atoms: Option<Seq<AtomModel>>) -> Option<Seq<AtomModel>> {
    if mode == ChunkMode::Cst {
        atoms
    } else {
        None
    }
}

/// The chunks of an observation.
pub open spec fn observation_chunks(
    cmd: Seq<char>,
    obs: Seq<char>,
    step: i64,
    win: nat,
    read_lines: Option<usize>,
    atoms: Option<Seq<AtomModel>>,
) -> Seq<ChunkModel> {
    all_stamped(
        bare_chunks(kind_of(cmd), obs, step, win, read_lines, atoms),
        cmd,
        exit_status(obs),
        obs,
    )
}

/// The bounds of `first_hit`, and what it finds.
pub proof fn lemma_first_hit(lines: Seq<Seq<char>>)
    ensures
        0 <= first_hit(lines) <= lines.len(),
        first_hit(lines) < lines.len() ==> grep_candidate(lines[first_hit(lines)]) is Some,
        forall|i: int| 0 <= i < first_hit(lines) ==> grep_candidate(#[trigger] lines[i]) is None,
    decreases lines.len(),
{
    if lines.len() > 0 && grep_candidate(lines[0]) is None {
        lemma_first_hit(lines.drop_first());
        assert forall|i: int| 0 <= i < first_hit(lines) implies grep_candidate(#[trigger] lines[i]) is None by {
            if i > 0 {
                assert(lines.drop_first()[i - 1] == lines[i]);
            }
        }
    }
}

/// The line `k` lines after `base`, which saturates.
fn line_number(base: i64, k: usize) -> (n: i64)
    ensures
        n == line_after(base as int, k as int),
{
    let sum: i128 = base as i128 + k as i128;
    if sum > i64::MAX as i128 {
        i64::MAX
    } else {
        sum as i64
    }
}

/// The end of the window of size `win` that starts at `from`, for `len` items.
fn window_end(from: usize, win: usize, len: usize) -> (to: usize)
    requires
        from < len,
    ensures
        to == from + window_len(win as nat, (len - from) as nat),
        from < to <= len,
{
    let size: usize = if win == 0 {
        1
    } else {
        win
    };
    if size < len - from {
        from + size
    } else {
        len
    }
}

/// Appends the windows of `lines[from..to]` that have content.
fn push_text_chunks(out: &mut Vec<Chunk>, lines: &Vec<&str>, from: usize, to: usize, win: usize, step: i64, kind: &str)
    requires
        from <= to <= lines@.len(),
    ensures
        chunks(final(out)@) == chunks(old(out)@) + text_chunks(
            strs(lines@).subrange(from as int, to as int),
            win as nat,
            step,
            kind@,
        ),
{
    let ghost all = strs(lines@);
    let mut k: usize = from;
    assert(chunks(out@) + text_chunks(all.subrange(from as int, to as int), win as nat, step, kind@)
        =~= chunks(old(out)@) + text_chunks(all.subrange(from as int, to as int), win as nat, step, kind@));
    while k < to
        invariant
            from <= k <= to <= lines@.len(),
            all == strs(lines@),
            chunks(out@) + text_chunks(all.subrange(k as int, to as int), win as nat, step, kind@) == chunks(old(out)@)
                + text_chunks(all.subrange(from as int, to as int), win as nat, step, kind@),
        decreases to - k,
    {
        let end: usize = window_end(k, win, to);
        let text = join_range(lines.as_slice(), k, end, "\n");
        let ghost here = all.subrange(k as int, to as int);
        let ghost before = chunks(out@);
        proof {
            reveal_strlit("\n");
            assert("\n"@ =~= lf());
            assert(here.take(end - k) =~= all.subrange(k as int, end as int));
            assert(here.skip(end - k) =~= all.subrange(end as int, to as int));
        }
        if py_has_content(text.as_str()) {
            let c = Chunk::new(text.as_str(), None, None, None, step, kind);
            out.push(c);
            proof {
                assert(chunks(out@) =~= before.push(c@));
                assert(before + text_chunks(here, win as nat, step, kind@) =~= chunks(out@)
                    + text_chunks(all.subrange(end as int, to as int), win as nat, step, kind@));
            }
        }
        k = end;
    }
    assert(chunks(out@) + text_chunks(all.subrange(k as int, to as int), win as nat, step, kind@) =~= chunks(out@));
}

/// A copy of a file name.
fn copy_name(file: &Option<String>) -> (r: Option<String>)
    ensures
        opt_str(r) == opt_str(*file),
{
    match file {
        Some(f) => Some(f.clone()),
        None => None,
    }
}

/// The windows of the lines of a file.
fn windows_of_file(lines: &Vec<&str>, file: &Option<String>, base: i64, win: usize, step: i64) -> (out: Vec<Chunk>)
    ensures
        chunks(out@) == read_chunks(strs(lines@), opt_str(*file), base as int, win as nat, step),
{
    let ghost all = strs(lines@);
    let ghost name = opt_str(*file);
    let ghost whole = read_chunks(all, name, base as int, win as nat, step);
    let mut out: Vec<Chunk> = Vec::new();
    let mut i: usize = 0;
    assert(all.skip(0) =~= all);
    assert(chunks(out@) + whole =~= whole);
    while i < lines.len()
        invariant
            i <= lines@.len(),
            all == strs(lines@),
            name == opt_str(*file),
            chunks(out@) + read_chunks(all.skip(i as int), name, base + i, win as nat, step) == whole,
        decreases lines@.len() - i,
    {
        let end: usize = window_end(i, win, lines.len());
        let text = join_range(lines.as_slice(), i, end, "\n");
        let c = Chunk::new(
            text.as_str(),
            copy_name(file),
            Some(line_number(base, i)),
            Some(line_number(base, end - 1)),
            step,
            "read",
        );
        let ghost before = chunks(out@);
        out.push(c);
        proof {
            reveal_strlit("\n");
            assert("\n"@ =~= lf());
            let here = all.skip(i as int);
            assert(here.take(end - i) =~= all.subrange(i as int, end as int));
            assert(here.skip(end - i) =~= all.skip(end as int));
            assert(chunks(out@) =~= before.push(c@));
            assert(before + read_chunks(here, name, base + i, win as nat, step) =~= chunks(out@) + read_chunks(
                all.skip(end as int),
                name,
                base + end,
                win as nat,
                step,
            ));
        }
        i = end;
    }
    assert(chunks(out@) + read_chunks(all.skip(i as int), name, base + i, win as nat, step) =~= chunks(out@));
    out
}

/// Lines without a result before them are before the first result.
proof fn lemma_first_hit_run(lines: Seq<Seq<char>>, k: int)
    requires
        0 <= k <= lines.len(),
        forall|i: int| 0 <= i < k ==> grep_candidate(#[trigger] lines[i]) is None,
        k < lines.len() ==> grep_candidate(lines[k]) is Some,
    ensures
        first_hit(lines) == k,
    decreases lines.len(),
{
    if k > 0 {
        assert forall|i: int| 0 <= i < k - 1 implies grep_candidate(#[trigger] lines.drop_first()[i]) is None by {
            assert(lines.drop_first()[i] == lines[i + 1]);
        }
        assert(grep_candidate(lines[0]) is None);
        lemma_first_hit_run(lines.drop_first(), k - 1);
    }
}

/// The chunks of the output of a search.
fn chunks_of_search(lines: &Vec<&str>, win: usize, step: i64) -> (out: Vec<Chunk>)
    ensures
        chunks(out@) == search_chunks(strs(lines@), win as nat, step),
{
    let ghost all = strs(lines@);
    let ghost whole = search_chunks(all, win as nat, step);
    let mut out: Vec<Chunk> = Vec::new();
    // `lines[run..i]` are the lines since the last result.
    let mut run: usize = 0;
    let mut i: usize = 0;
    assert(all.skip(0) =~= all);
    assert(chunks(out@) + whole =~= whole);
    while i < lines.len()
        invariant
            run <= i <= lines@.len(),
            all == strs(lines@),
            forall|j: int| run <= j < i ==> grep_candidate(#[trigger] all[j]) is None,
            chunks(out@) + search_chunks(all.skip(run as int), win as nat, step) == whole,
        decreases lines@.len() - i,
    {
        let line = lines[i];
        assert(all[i as int] == line@);
        match parse_grep_candidate(line) {
            Some((file, n)) => {
                let ghost before = chunks(out@);
                push_text_chunks(&mut out, lines, run, i, win, step, "other");
                let ghost middle = chunks(out@);
                let c = Chunk::new(line, Some(file), n, n, step, "grep");
                out.push(c);
                proof {
                    let here = all.skip(run as int);
                    assert forall|j: int| 0 <= j < i - run implies grep_candidate(#[trigger] here[j]) is None by {
                        assert(here[j] == all[run + j]);
                    }
                    lemma_first_hit_run(here, i - run);
                    assert(here.take(i - run) =~= all.subrange(run as int, i as int));
                    assert(here.skip(i - run + 1) =~= all.skip(i + 1));
                    assert(c@ == hit_chunk(line@, step));
                    assert(chunks(out@) =~= middle.push(c@));
                    assert(before + search_chunks(here, win as nat, step) =~= chunks(out@) + search_chunks(
                        all.skip(i + 1),
                        win as nat,
                        step,
                    ));
                }
                run = i + 1;
            },
            None => {},
        }
        i = i + 1;
    }
    push_text_chunks(&mut out, lines, run, lines.len(), win, step, "other");
    proof {
        let here = all.skip(run as int);
        assert forall|j: int| 0 <= j < here.len() implies grep_candidate(#[trigger] here[j]) is None by {
            assert(here[j] == all[run + j]);
        }
        lemma_first_hit_run(here, here.len() as int);
        assert(here =~= all.subrange(run as int, lines@.len() as int));
    }
    out
}

/// The numbers and texts of numbered lines.
pub open spec fn numbered(list: Seq<(i64, &str)>) -> Seq<(i64, Seq<char>)> {
    Seq::new(list.len(), |i: int| (list[i].0, list[i].1@))
}

/// The lines of a file that have content, numbered from `base` by their place in `obs`.
fn content_lines(obs: &str, base: i64) -> (out: Vec<(i64, &str)>)
    ensures
        numbered(out@) == numbered_content(splitlines(obs@), base as int),
{
    let lines = py_splitlines(obs);
    let ghost all = strs(lines@);
    let ghost whole = numbered_content(all, base as int);
    let mut out: Vec<(i64, &str)> = Vec::new();
    let mut i: usize = 0;
    assert(all.skip(0) =~= all);
    assert(numbered(out@) + whole =~= whole);
    while i < lines.len()
        invariant
            i <= lines@.len(),
            all == strs(lines@),
            numbered(out@) + numbered_content(all.skip(i as int), base + i) == whole,
        decreases lines@.len() - i,
    {
        let line = lines[i];
        let ghost before = numbered(out@);
        let ghost here = all.skip(i as int);
        proof {
            assert(here[0] == line@);
            assert(here.drop_first() =~= all.skip(i + 1));
        }
        if py_has_content(line) {
            let n: i64 = line_number(base, i);
            out.push((n, line));
            proof {
                assert(numbered(out@) =~= before.push((n, line@)));
                assert(before + numbered_content(here, base + i) =~= numbered(out@) + numbered_content(
                    all.skip(i + 1),
                    base + i + 1,
                ));
            }
        }
        i = i + 1;
    }
    assert(numbered(out@) + numbered_content(all.skip(i as int), base + i) =~= numbered(out@));
    out
}

/// The file of a command, and the lines of its output that have content, each with its number.
pub open spec fn atom_source(cmd: Seq<char>, obs: Seq<char>) -> (Option<Seq<char>>, Seq<(i64, Seq<char>)>) {
    (file_of(cmd), numbered_content(splitlines(obs), first_line(cmd) as int))
}

/// The file that a command reads, and the lines of its output that have content, each with its
/// number in that file.
pub fn read_atom_lines<'a>(cmd: &str, obs: &'a str) -> (r: (Option<String>, Vec<(i64, &'a str)>))
    ensures
        opt_str(r.0) == file_of(cmd@),
        numbered(r.1@) == numbered_content(splitlines(obs@), first_line(cmd@) as int),
        (opt_str(r.0), numbered(r.1@)) == atom_source(cmd@, obs@),
{
    (first_file(cmd), content_lines(obs, sed_base(cmd)))
}

/// The texts of `lines[from..to]`, joined.
fn join_numbered(lines: &Vec<(i64, &str)>, from: usize, to: usize) -> (text: String)
    requires
        from <= to <= lines@.len(),
    ensures
        text@ == join(line_texts(numbered(lines@).subrange(from as int, to as int)), lf()),
{
    let mut parts: Vec<&str> = Vec::new();
    let mut i: usize = from;
    let ghost all = numbered(lines@);
    while i < to
        invariant
            from <= i <= to <= lines@.len(),
            all == numbered(lines@),
            strs(parts@) == line_texts(all.subrange(from as int, i as int)),
        decreases to - i,
    {
        let ghost before = strs(parts@);
        parts.push(lines[i].1);
        proof {
            assert(strs(parts@) =~= before.push(all[i as int].1));
            assert(strs(parts@) =~= line_texts(all.subrange(from as int, i + 1)));
        }
        i = i + 1;
    }
    proof {
        reveal_strlit("\n");
        assert("\n"@ =~= lf());
        assert(strs(parts@).subrange(0, parts@.len() as int) =~= strs(parts@));
    }
    join_range(parts.as_slice(), 0, parts.len(), "\n")
}

/// Groups of numbered lines.
fn groups_of_lines(lines: &Vec<(i64, &str)>, file: &Option<String>, size: usize, step: i64) -> (out: Vec<Chunk>)
    ensures
        chunks(out@) == group_chunks(numbered(lines@), opt_str(*file), size as nat, step),
{
    let ghost all = numbered(lines@);
    let ghost name = opt_str(*file);
    let ghost whole = group_chunks(all, name, size as nat, step);
    let mut out: Vec<Chunk> = Vec::new();
    let mut i: usize = 0;
    assert(all.skip(0) =~= all);
    assert(chunks(out@) + whole =~= whole);
    while i < lines.len()
        invariant
            i <= lines@.len(),
            all == numbered(lines@),
            name == opt_str(*file),
            chunks(out@) + group_chunks(all.skip(i as int), name, size as nat, step) == whole,
        decreases lines@.len() - i,
    {
        let end: usize = window_end(i, size, lines.len());
        let text = join_numbered(lines, i, end);
        let c = Chunk::new(text.as_str(), copy_name(file), Some(lines[i].0), Some(lines[end - 1].0), step, "read");
        let ghost before = chunks(out@);
        out.push(c);
        proof {
            let here = all.skip(i as int);
            assert(here.take(end - i) =~= all.subrange(i as int, end as int));
            assert(here.skip(end - i) =~= all.skip(end as int));
            assert(here[0] == all[i as int]);
            assert(here[end - i - 1] == all[end - 1]);
            assert(chunks(out@) =~= before.push(c@));
            assert(before + group_chunks(here, name, size as nat, step) =~= chunks(out@) + group_chunks(
                all.skip(end as int),
                name,
                size as nat,
                step,
            ));
        }
        i = end;
    }
    assert(chunks(out@) + group_chunks(all.skip(i as int), name, size as nat, step) =~= chunks(out@));
    out
}

/// The chunks of atoms.
fn chunks_of_atoms(atoms: &Vec<CstAtom>, file: &Option<String>, step: i64) -> (out: Vec<Chunk>)
    ensures
        chunks(out@) == atom_chunks(atoms_of(Some(atoms))->0, opt_str(*file), step),
{
    let mut out: Vec<Chunk> = Vec::new();
    let mut i: usize = 0;
    let ghost all = atom_chunks(atoms_of(Some(atoms))->0, opt_str(*file), step);
    while i < atoms.len()
        invariant
            i <= atoms@.len(),
            all == atom_chunks(atoms_of(Some(atoms))->0, opt_str(*file), step),
            chunks(out@) == all.take(i as int),
        decreases atoms@.len() - i,
    {
        let atom = &atoms[i];
        let mut c = Chunk::new(atom.text.as_str(), copy_name(file), Some(atom.lo), Some(atom.hi), step, "read");
        c.struct_class = atom.class.clone();
        let ghost before = chunks(out@);
        out.push(c);
        proof {
            assert(chunks(out@) =~= before.push(c@));
            assert(c@ == all[i as int]);
            assert(all.take(i + 1) =~= all.take(i as int).push(all[i as int]));
        }
        i = i + 1;
    }
    assert(all.take(i as int) =~= all);
    out
}

/// `list`, or the whole observation as one chunk where that is empty.
fn with_fallback(list: Vec<Chunk>, obs: &str, file: &Option<String>, step: i64, kind: &str) -> (out: Vec<Chunk>)
    ensures
        chunks(out@) == or_raw(chunks(list@), obs@, opt_str(*file), step, kind@),
{
    let mut out = list;
    if out.len() == 0 {
        let c = Chunk::new(obs, copy_name(file), None, None, step, kind);
        out.push(c);
        assert(chunks(out@) =~= seq![c@]);
    }
    out
}

/// The chunks of an observation by windows of `win` lines.
pub fn chunk_observation_inner(kind: &CommandKind, obs: &str, step: i64, win: usize) -> (out: Vec<Chunk>)
    ensures
        chunks(out@) == window_chunks(kind@, obs@, step, win as nat),
{
    let lines = py_splitlines(obs);
    match kind {
        CommandKind::Search => with_fallback(chunks_of_search(&lines, win, step), obs, &None, step, "other"),
        CommandKind::Read { file, base } => with_fallback(
            windows_of_file(&lines, file, *base, win, step),
            obs,
            file,
            step,
            "read",
        ),
        CommandKind::Other => {
            let mut out: Vec<Chunk> = Vec::new();
            push_text_chunks(&mut out, &lines, 0, lines.len(), win, step, "other");
            proof {
                assert(strs(lines@).subrange(0, lines@.len() as int) =~= strs(lines@));
                assert(chunks(out@) =~= text_chunks(strs(lines@), win as nat, step, "other"@));
            }
            with_fallback(out, obs, &None, step, "other")
        },
    }
}

/// Has every chunk carry its command, its status and the head of its observation.
fn stamp(list: Vec<Chunk>, cmd: &str, rc: Option<i64>, obs: &str) -> (out: Vec<Chunk>)
    ensures
        chunks(out@) == all_stamped(chunks(list@), cmd@, rc, obs@),
{
    let ghost all = all_stamped(chunks(list@), cmd@, rc, obs@);
    let cmd_head = char_prefix(cmd, CMD_HEAD);
    let obs_head = char_prefix(obs, OBS_HEAD);
    let mut out: Vec<Chunk> = Vec::new();
    let ghost model = chunks(list@);
    let n: usize = list.len();
    for c in it: list
        invariant
            n == list@.len(),
            model == chunks(list@),
            it.seq() == list@,
            all == all_stamped(model, cmd@, rc, obs@),
            cmd_head@ == prefix(cmd@, CMD_HEAD as int),
            obs_head@ == prefix(obs@, OBS_HEAD as int),
            chunks(out@) == all.take(it.index() as int),
    {
        let mut d = c;
        d.cmd = cmd_head.to_string();
        d.rc = rc;
        d.head = obs_head.to_string();
        let ghost before = chunks(out@);
        out.push(d);
        proof {
            let i = it.index() as int;
            assert(model[i] == c@);
            assert(chunks(out@) =~= before.push(d@));
            assert(d@ == all[i]);
            assert(all.take(i + 1) =~= all.take(i).push(all[i]));
        }
    }
    assert(all.take(n as int) =~= all);
    out
}

/// The chunks of an observation whose command has been classified and whose exit status is known.
/// `atoms` is what a segmenter found in the lines of a file that was read.
pub fn chunk_classified(
    kind: &CommandKind,
    rc: Option<i64>,
    cmd: &str,
    obs: &str,
    step: i64,
    win: usize,
    read_lines: Option<usize>,
    atoms: Option<&Vec<CstAtom>>,
) -> (out: Vec<Chunk>)
    ensures
        chunks(out@) == all_stamped(
            bare_chunks(kind@, obs@, step, win as nat, read_lines, atoms_of(atoms)),
            cmd@,
            rc,
            obs@,
        ),
{
    let list = match (kind, read_lines) {
        (CommandKind::Read { file, base }, Some(size)) => {
            let lines = content_lines(obs, *base);
            assert(numbered(lines@).len() == lines@.len());
            let list = match atoms {
                Some(found) if lines.len() > 0 => chunks_of_atoms(found, file, step),
                _ => groups_of_lines(&lines, file, size, step),
            };
            with_fallback(list, obs, file, step, "read")
        },
        _ => chunk_observation_inner(kind, obs, step, win),
    };
    stamp(list, cmd, rc, obs)
}

/// What a segmenter is asked for an observation: the file and its numbered lines with content.
pub open spec fn segmenter_input(
    cmd: Seq<char>,
    obs: Seq<char>,
    read_lines: Option<usize>,
    mode: ChunkMode,
) -> Option<(Option<Seq<char>>, Seq<(i64, Seq<char>)>)> {
    match kind_of(cmd) {
        KindModel::Read { file, base } if read_lines is Some && mode == ChunkMode::Cst && numbered_content(
            splitlines(obs),
            base as int,
        ).len() > 0 => Some((file, numbered_content(splitlines(obs), base as int))),
        _ => None,
    }
}

/// What to ask a segmenter before `chunk_observation`, or `None` where its answer would not
/// count.
pub fn segmenter_request<'a>(
    cmd: &str,
    obs: &'a str,
    read_lines: Option<usize>,
    mode: ChunkMode,
) -> (r: Option<(Option<String>, Vec<(i64, &'a str)>)>)
    ensures
        (match r {
            Some((file, lines)) => Some((opt_str(file), numbered(lines@))),
            None => None,
        }) == segmenter_input(cmd@, obs@, read_lines, mode),
{
    if read_lines.is_none() || mode != ChunkMode::Cst {
        return None;
    }
    match classify(cmd) {
        CommandKind::Read { file, base } => {
            let lines = content_lines(obs, base);
            assert(numbered(lines@).len() == lines@.len());
            if lines.len() > 0 {
                Some((file, lines))
            } else {
                None
            }
        },
        _ => None,
    }
}

/// The chunks of an observation. Under `ChunkMode::Cst`, `atoms` is what a segmenter answered to
/// `segmenter_request`: the atoms that it found in the lines of a file that was read, or `None`
/// where it could not segment them. A `win` or a group size of 0 is taken as 1.
pub fn chunk_observation(
    cmd: &str,
    obs: &str,
    step: i64,
    win: usize,
    read_lines: Option<usize>,
    mode: ChunkMode,
    atoms: Option<&Vec<CstAtom>>,
) -> (out: Vec<Chunk>)
    ensures
        chunks(out@) == observation_chunks(
            cmd@,
            obs@,
            step,
            win as nat,
            read_lines,
            atoms_under(mode, atoms_of(atoms)),
        ),
        kind_of(cmd@) is Read ==> all_marked(chunks(out@), file_of(cmd@), "read"@),
{
    proof {
        if kind_of(cmd@) is Read {
            law_read_chunks_name_their_file(cmd@, obs@, step, win as nat, read_lines, atoms_under(mode, atoms_of(atoms)));
        }
    }
    let kind = classify(cmd);
    let rc = obs_rc(obs);
    let counted = if mode == ChunkMode::Cst {
        atoms
    } else {
        None
    };
    chunk_classified(&kind, rc, cmd, obs, step, win, read_lines, counted)
}

/// The chunks of an agent's own message.
pub open spec fn assistant_chunks(txt: Seq<char>, step: i64, win: nat) -> Seq<ChunkModel> {
    text_chunks(splitlines(txt), win, step, "asst"@)
}

/// The text of an agent's own message, by windows of `win` lines; none of them is blank.
pub fn chunk_assistant(txt: &str, step: i64, win: usize) -> (out: Vec<Chunk>)
    ensures
        chunks(out@) == text_chunks(splitlines(txt@), win as nat, step, "asst"@),
        chunks(out@) == assistant_chunks(txt@, step, win as nat),
{
    let lines = py_splitlines(txt);
    let mut out: Vec<Chunk> = Vec::new();
    push_text_chunks(&mut out, &lines, 0, lines.len(), win, step, "asst");
    proof {
        assert(strs(lines@).subrange(0, lines@.len() as int) =~= strs(lines@));
        assert(chunks(out@) =~= text_chunks(strs(lines@), win as nat, step, "asst"@));
    }
    out
}

/// The chunks of the first `n` steps.
pub open spec fn chunks_through(
    steps: Seq<(String, String)>,
    n: nat,
    read_lines: Option<usize>,
    atoms: spec_fn(int) -> Option<Seq<AtomModel>>,
) -> Seq<ChunkModel>
    decreases n,
{
    if n == 0 {
        seq![]
    } else {
        let s = n - 1;
        chunks_through(steps, s as nat, read_lines, atoms) + observation_chunks(
            steps[s].0@,
            steps[s].1@,
            s as i64,
            DEFAULT_WIN as nat,
            read_lines,
            atoms(s),
        )
    }
}

/// How many of `len` steps there are through the step `upto`.
pub open spec fn steps_through(upto: nat, len: nat) -> nat {
    if upto < len {
        upto + 1
    } else {
        len
    }
}

/// The atoms of one step out of a list that may be shorter than the steps are.
pub open spec fn step_atoms(list: Seq<Option<Vec<CstAtom>>>, mode: ChunkMode) -> spec_fn(int) -> Option<Seq<AtomModel>> {
    |s: int|
        if 0 <= s < list.len() {
            match list[s] {
                Some(v) => atoms_under(mode, atoms_of(Some(&v))),
                None => None,
            }
        } else {
            None
        }
}

/// The steps through the step `upto`.
fn seen_steps<'a>(steps: &'a [(String, String)], upto: usize) -> (seen: Vec<&'a (String, String)>)
    ensures
        seen@.len() == steps_through(upto as nat, steps@.len()),
        forall|s: int| 0 <= s < seen@.len() ==> *(#[trigger] seen@[s]) == steps@[s],
        seen@.len() <= i64::MAX,
{
    let end: usize = if upto < steps.len() {
        upto + 1
    } else {
        steps.len()
    };
    let mut seen: Vec<&'a (String, String)> = Vec::new();
    let mut s: usize = 0;
    while s < end
        invariant
            s <= end <= steps@.len(),
            seen@.len() == s,
            forall|i: int| 0 <= i < s ==> *(#[trigger] seen@[i]) == steps@[i],
        decreases end - s,
    {
        seen.push(&steps[s]);
        s = s + 1;
    }
    // A reference takes four bytes or eight, and a list of them has no more bytes than `usize`
    // counts: every index of the list fits in `i64`.
    let list = seen.as_slice();
    let bytes: usize = std::mem::size_of_val(list);
    proof {
        broadcast use {
            vstd::layout::layout_of_primitives,
            vstd::layout::layout_of_references_and_pointers,
            vstd::layout::layout_of_references_and_pointers_for_sized_types,
            vstd::layout::layout_of_slices,
        };

        let width = vstd::layout::size_of::<&(String, String)>();
        assert(bytes == list@.len() * width);
        assert(width == 4 || width == 8);
        if width == 4 {
            assert(bytes == list@.len() * 4);
        } else {
            assert(bytes == list@.len() * 8);
        }
    }
    seen
}

/// All chunks that the agent has seen through the step `upto`, where `atoms[s]` is what a
/// segmenter answered for step `s`; a step beyond that list has no answer. The chunks come in the
/// order of their steps, and every step has one at least.
pub fn accumulated_chunks(
    steps: &[(String, String)],
    upto: usize,
    read_lines: Option<usize>,
    mode: ChunkMode,
    atoms: &[Option<Vec<CstAtom>>],
) -> (out: Vec<Chunk>)
    ensures
        chunks(out@) == chunks_through(
            steps@,
            steps_through(upto as nat, steps@.len()),
            read_lines,
            step_atoms(atoms@, mode),
        ),
        steps_through(upto as nat, steps@.len()) <= i64::MAX,
        in_step_order(chunks(out@), steps_through(upto as nat, steps@.len()) as int),
        forall|s: int|
            0 <= s < steps_through(upto as nat, steps@.len()) ==> #[trigger] has_step(chunks(out@), s),
{
    let seen = seen_steps(steps, upto);
    let mut out: Vec<Chunk> = Vec::new();
    let mut s: usize = 0;
    assert(chunks(out@) =~= seq![]);
    while s < seen.len()
        invariant
            s <= seen@.len() <= steps@.len(),
            seen@.len() <= i64::MAX,
            forall|i: int| 0 <= i < seen@.len() ==> *(#[trigger] seen@[i]) == steps@[i],
            chunks(out@) == chunks_through(steps@, s as nat, read_lines, step_atoms(atoms@, mode)),
        decreases seen@.len() - s,
    {
        let (cmd, obs) = seen[s];
        assert(*seen@[s as int] == steps@[s as int]);
        let found: Option<&Vec<CstAtom>> = if s < atoms.len() {
            match &atoms[s] {
                Some(v) => Some(v),
                None => None,
            }
        } else {
            None
        };
        let mut list = chunk_observation(
            cmd.as_str(),
            obs.as_str(),
            s as i64,
            DEFAULT_WIN,
            read_lines,
            mode,
            found,
        );
        let ghost before = chunks(out@);
        let ghost added = chunks(list@);
        out.append(&mut list);
        assert(chunks(out@) =~= before + added);
        s = s + 1;
    }
    proof {
        law_accumulated_chunks_are_in_step_order(steps@, seen@.len(), read_lines, step_atoms(atoms@, mode));
    }
    out
}

/// No step has atoms.
pub open spec fn no_atoms() -> spec_fn(int) -> Option<Seq<AtomModel>> {
    |s: int| None
}

} // verus!
