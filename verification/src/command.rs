//! What a command says of its output: whether it searches or reads, which file, from which line.
use vstd::prelude::*;

use crate::grep::{base_name, basename, line_no, parse_line_no};
use crate::number::{all_digits, digits_value, i64_value, integer_value, parse_i64, unsigned_part};
use crate::pattern::{address_text, ascii_digit, either, find_address, find_status, has_suffix, is_file_arg, is_read, is_search, number_text, read_command, regex_group_text, regex_matches, search_command, status_text, READ, RETURN_CODE, SEARCH, SED_ONE, SED_RANGE};
use crate::pystr::{char_prefix, prefix, py_split_ws, split_ws};
use crate::text::{opt_str, strs};

verus! {

/// `cmd` with its quotes replaced by spaces.
pub open spec fn unquoted(cmd: Seq<char>) -> Seq<char> {
    cmd.map_values(
        |c: char|
            if c == '\'' || c == '"' {
                ' '
            } else {
                c
            },
    )
}

/// The base name of the first word that looks like a file name.
pub open spec fn first_named(words: Seq<Seq<char>>) -> Option<Seq<char>>
    decreases words.len(),
{
    if words.len() == 0 {
        None
    } else if has_suffix(base_name(words[0])) {
        Some(base_name(words[0]))
    } else {
        first_named(words.drop_first())
    }
}

/// The file that `cmd` works on, by its base name.
pub open spec fn file_of(cmd: Seq<char>) -> Option<Seq<char>> {
    first_named(split_ws(unquoted(cmd)))
}

/// The line that an address names, or 1 without one.
pub open spec fn address_line(address: Option<Seq<char>>) -> i64 {
    match address {
        Some(g) => line_no(g),
        None => 1,
    }
}

/// The line at which the output of `cmd` starts.
pub open spec fn first_line(cmd: Seq<char>) -> i64 {
    address_line(address_text(cmd))
}

/// The exit status that a captured text denotes.
pub open spec fn status_value(status: Option<Seq<char>>) -> Option<i64> {
    match status {
        Some(g) => i64_value(g),
        None => None,
    }
}

/// How much of an observation is searched for its exit status.
pub const STATUS_HEAD: usize = 400;

/// The exit status that an observation gives near its start.
pub open spec fn exit_status(obs: Seq<char>) -> Option<i64> {
    status_value(status_text(prefix(obs, STATUS_HEAD as int)))
}

/// What kind of output a command has.
#[derive(Debug, Clone, PartialEq)]
pub enum CommandKind {
    /// Result lines of a search.
    Search,
    /// Lines of a file, from the line `base` on.
    Read { file: Option<String>, base: i64 },
    /// Anything else.
    Other,
}

/// What a `CommandKind` holds.
pub enum KindModel {
    Search,
    Read { file: Option<Seq<char>>, base: i64 },
    Other,
}

impl View for CommandKind {
    type V = KindModel;

    open spec fn view(&self) -> KindModel {
        match *self {
            CommandKind::Search => KindModel::Search,
            CommandKind::Read { file, base } => KindModel::Read { file: opt_str(file), base },
            CommandKind::Other => KindModel::Other,
        }
    }
}

/// The kind of output that `cmd` has. A search takes precedence over a read.
pub open spec fn kind_of(cmd: Seq<char>) -> KindModel {
    if search_command(cmd) {
        KindModel::Search
    } else if read_command(cmd) {
        KindModel::Read { file: file_of(cmd), base: first_line(cmd) }
    } else {
        KindModel::Other
    }
}

/// The file that a command works on: the base name of its first word that looks like a file name.
pub fn first_file(cmd: &str) -> (r: Option<String>)
    ensures
        opt_str(r) == file_of(cmd@),
{
    let mut cleaned = String::new();
    let mut it = cmd.chars();
    let ghost mut n: int = 0;
    let ghost all = unquoted(cmd@);
    assert(cmd@.skip(0) =~= cmd@);
    assert(all.take(0) =~= Seq::<char>::empty());
    loop
        invariant_except_break
            0 <= n <= cmd@.len(),
            vstd::std_specs::iter::IteratorSpec::remaining(&it) == cmd@.skip(n),
            all == unquoted(cmd@),
            cleaned@ == all.take(n),
        ensures
            cleaned@ == unquoted(cmd@),
        decreases cmd@.len() - n,
    {
        match it.next() {
            None => {
                assert(all.take(n) =~= all);
                break;
            },
            Some(c) => {
                assert(cmd@.skip(n)[0] == cmd@[n]);
                assert(cmd@.skip(n).drop_first() =~= cmd@.skip(n + 1));
                if c == '\'' || c == '"' {
                    cleaned.push(' ');
                } else {
                    cleaned.push(c);
                }
                assert(all.take(n + 1) =~= all.take(n).push(all[n]));
                proof {
                    n = n + 1;
                }
            },
        }
    }
    let words = py_split_ws(cleaned.as_str());
    let mut i: usize = 0;
    assert(strs(words@).skip(0) =~= strs(words@));
    while i < words.len()
        invariant
            i <= words.len(),
            first_named(strs(words@).skip(i as int)) == file_of(cmd@),
        decreases words.len() - i,
    {
        let name = basename(words[i]);
        assert(strs(words@).skip(i as int)[0] == words@[i as int]@);
        if is_file_arg(name) {
            return Some(name.to_string());
        }
        assert(strs(words@).skip(i as int).drop_first() =~= strs(words@).skip(i + 1));
        i = i + 1;
    }
    None
}

/// A number text denotes no negative line.
proof fn lemma_number_text_line(s: Seq<char>)
    requires
        number_text(s),
    ensures
        line_no(s) >= 0,
{
    let body = unsigned_part(s);
    assert(s[0] != '-' && s[0] != '+') by {
        if s[0] == '-' || s[0] == '+' {
            assert(s[0] as u32 <= 0x7f);
        }
    }
    if integer_value(s) is Some {
        lemma_digits_value_nonneg(s);
    }
}

/// Digits denote no negative number.
pub proof fn lemma_digits_value_nonneg(s: Seq<char>)
    requires
        all_digits(s),
    ensures
        digits_value(s) >= 0,
    decreases s.len(),
{
    if s.len() > 0 {
        assert(ascii_digit(s.last()));
        lemma_digits_value_nonneg(s.drop_last());
    }
}

/// The line that a captured address names.
pub fn line_of_address(address: Option<&str>) -> (n: i64)
    ensures
        n == address_line(match address {
            Some(g) => Some(g@),
            None => None,
        }),
{
    match address {
        Some(g) => parse_line_no(g),
        None => 1,
    }
}

/// The line at which the output of a command starts: the first line of `sed -n 'a,bp'`, the line
/// of `sed -n Np`, and otherwise 1.
pub fn sed_base(cmd: &str) -> (n: i64)
    ensures
        n == first_line(cmd@),
        n >= 0,
        n == address_line(
            either(regex_group_text(SED_RANGE@, cmd@, 1), regex_group_text(SED_ONE@, cmd@, 1)),
        ),
{
    let address = find_address(cmd);
    match address {
        Some(g) => {
            proof {
                lemma_number_text_line(g@);
            }
            line_of_address(Some(g.as_str()))
        },
        None => line_of_address(None),
    }
}

/// The exit status that a captured text denotes, if an `i64` holds it.
pub fn status_of_text(status: Option<&str>) -> (rc: Option<i64>)
    ensures
        rc == status_value(match status {
            Some(g) => Some(g@),
            None => None,
        }),
{
    match status {
        Some(g) => parse_i64(g),
        None => None,
    }
}

/// The exit status that an observation gives in its first characters.
pub fn obs_rc(obs: &str) -> (rc: Option<i64>)
    ensures
        rc == exit_status(obs@),
        rc == status_value(
            either(
                regex_group_text(RETURN_CODE@, prefix(obs@, 400), 1),
                regex_group_text(RETURN_CODE@, prefix(obs@, 400), 2),
            ),
        ),
{
    let status = find_status(char_prefix(obs, STATUS_HEAD));
    match status {
        Some(g) => status_of_text(Some(g.as_str())),
        None => status_of_text(None),
    }
}

/// The kind of output that a command has.
pub fn classify(cmd: &str) -> (kind: CommandKind)
    ensures
        kind@ == kind_of(cmd@),
        kind@ is Search <==> regex_matches(SEARCH@, cmd@),
        kind@ is Read <==> !regex_matches(SEARCH@, cmd@) && regex_matches(READ@, cmd@),
        kind@ matches KindModel::Read { file, base } ==> file == file_of(cmd@) && base == first_line(cmd@),
{
    if is_search(cmd) {
        CommandKind::Search
    } else if is_read(cmd) {
        CommandKind::Read { file: first_file(cmd), base: sed_base(cmd) }
    } else {
        CommandKind::Other
    }
}

} // verus!
