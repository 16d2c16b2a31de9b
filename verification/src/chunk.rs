//! The chunk: a piece of what an agent has seen, with where it came from and what it weighs.
use vstd::prelude::*;

use crate::pystr::char_len;
use crate::text::opt_str;

verus! {

/// How the lines of a file that was read are grouped.
#[derive(Debug, Clone, Copy, PartialEq, Eq, Structural)]
pub enum ChunkMode {
    /// Fixed line windows.
    Fixed,
    /// Atoms of the syntax tree, where a segmenter finds them.
    Cst,
}

impl Default for ChunkMode {
    fn default() -> (mode: Self)
        ensures
            mode == ChunkMode::Fixed,
    {
        ChunkMode::Fixed
    }
}

/// The letters of `cst`, each in either case.
pub open spec fn names_cst(value: Seq<char>) -> bool {
    &&& value.len() == 3
    &&& value[0] == 'c' || value[0] == 'C'
    &&& value[1] == 's' || value[1] == 'S'
    &&& value[2] == 't' || value[2] == 'T'
}

/// The mode that a setting names.
pub open spec fn setting_mode(value: Seq<char>) -> ChunkMode {
    if names_cst(value) {
        ChunkMode::Cst
    } else {
        ChunkMode::Fixed
    }
}

impl ChunkMode {
    /// The mode that a setting names: `cst` in any case, and fixed windows for anything else.
    pub fn from_setting(value: &str) -> (mode: Self)
        ensures
            mode == if names_cst(value@) {
                ChunkMode::Cst
            } else {
                ChunkMode::Fixed
            },
            mode == setting_mode(value@),
    {
        let mut it = value.chars();
        let first = it.next();
        let second = it.next();
        let third = it.next();
        let rest = it.next();
        match (first, second, third, rest) {
            (Some('c' | 'C'), Some('s' | 'S'), Some('t' | 'T'), None) => ChunkMode::Cst,
            _ => ChunkMode::Fixed,
        }
    }
}

/// How many lines a window holds by default.
pub const DEFAULT_WIN: usize = 40;

/// A piece of what an agent has seen.
#[derive(Debug, Clone, PartialEq)]
pub struct Chunk {
    /// The text itself.
    pub text: String,
    /// The base name of the file it shows, or `None` for what is no file.
    pub file: Option<String>,
    /// The first line that it covers.
    pub lo: Option<i64>,
    /// The last line that it covers.
    pub hi: Option<i64>,
    /// The step that produced it.
    pub step: i64,
    /// `read`, `grep`, `other`, `reasoning` or `asst`.
    pub kind: String,
    /// Its weight in tokens.
    pub tokens: i64,
    /// How it is evicted: `content` or `provider`.
    pub evict: String,
    /// The start of the command that produced it.
    pub cmd: String,
    /// The exit status, where the observation gives one.
    pub rc: Option<i64>,
    /// The start of the observation.
    pub head: String,
    /// The class of its node in the syntax tree; empty for anything else.
    pub struct_class: String,
}

/// What a chunk holds.
#[verifier::ext_equal]
pub struct ChunkModel {
    pub text: Seq<char>,
    pub file: Option<Seq<char>>,
    pub lo: Option<i64>,
    pub hi: Option<i64>,
    pub step: i64,
    pub kind: Seq<char>,
    pub tokens: i64,
    pub evict: Seq<char>,
    pub cmd: Seq<char>,
    pub rc: Option<i64>,
    pub head: Seq<char>,
    pub struct_class: Seq<char>,
}

impl View for Chunk {
    type V = ChunkModel;

    open spec fn view(&self) -> ChunkModel {
        ChunkModel {
            text: self.text@,
            file: opt_str(self.file),
            lo: self.lo,
            hi: self.hi,
            step: self.step,
            kind: self.kind@,
            tokens: self.tokens,
            evict: self.evict@,
            cmd: self.cmd@,
            rc: self.rc,
            head: self.head@,
            struct_class: self.struct_class@,
        }
    }
}

/// What the chunks of a list hold.
pub open spec fn chunks(list: Seq<Chunk>) -> Seq<ChunkModel> {
    Seq::new(list.len(), |i: int| list[i]@)
}

/// The weight of a text: a token for every four characters, at least one, and no more than `i64`
/// holds.
pub open spec fn text_tokens(text: Seq<char>) -> i64 {
    if text.len() < 8 {
        1
    } else if text.len() / 4 > i64::MAX {
        i64::MAX
    } else {
        (text.len() / 4) as i64
    }
}

/// A chunk as `Chunk::new` makes it.
pub open spec fn new_chunk(
    text: Seq<char>,
    file: Option<Seq<char>>,
    lo: Option<i64>,
    hi: Option<i64>,
    step: i64,
    kind: Seq<char>,
) -> ChunkModel {
    ChunkModel {
        text,
        file,
        lo,
        hi,
        step,
        kind,
        tokens: text_tokens(text),
        evict: "content"@,
        cmd: seq![],
        rc: None,
        head: seq![],
        struct_class: seq![],
    }
}

/// A chunk with the given weight, if that is positive, and otherwise as it is.
pub open spec fn reweighed(c: ChunkModel, tokens: i64) -> ChunkModel {
    if tokens > 0 {
        ChunkModel { tokens, ..c }
    } else {
        c
    }
}

impl Chunk {
    /// A chunk of content, whose weight comes from the length of its text.
    pub fn new(
        text: &str,
        file: Option<String>,
        lo: Option<i64>,
        hi: Option<i64>,
        step: i64,
        kind: &str,
    ) -> (c: Self)
        ensures
            c@ == new_chunk(text@, opt_str(file), lo, hi, step, kind@),
            c.tokens >= 1,
    {
        let quarter: usize = char_len(text) / 4;
        let tokens: i64 = if quarter < 2 {
            1
        } else {
            quarter as i64
        };
        Chunk {
            text: text.to_string(),
            file,
            lo,
            hi,
            step,
            kind: kind.to_string(),
            tokens,
            evict: "content".to_string(),
            cmd: String::new(),
            rc: None,
            head: String::new(),
            struct_class: String::new(),
        }
    }

    /// The chunk with the given weight, if that is positive.
    pub fn with_tokens(self, tokens: i64) -> (c: Self)
        ensures
            c@ == (ChunkModel {
                tokens: if tokens > 0 {
                    tokens
                } else {
                    self.tokens
                },
                ..self@
            }),
            c@ == reweighed(self@, tokens),
    {
        let mut c = self;
        if tokens > 0 {
            c.tokens = tokens;
        }
        c
    }
}

} // verus!
