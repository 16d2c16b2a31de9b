//! The laws of the library on many inputs: every run draws the same pseudo-random ones.
use parsec_engine::chunk::ChunkMode;
use parsec_engine::chunking::{
    accumulated_chunks, chunk_assistant, chunk_observation, obs_rc, parse_grep_candidate,
    sed_base, segmenter_request, Chunk, CstAtom,
};
use parsec_engine::float::{py_float_repr, tie_precision, Float};
use parsec_engine::json::{Json, Number};
use parsec_engine::messages::{assistant_chunks_of, blob_tokens, reasoning_chunks_of, steps_of};
use parsec_engine::pattern::{
    find_address, find_status, has_extension, is_file_arg, is_read, is_search, EXTENSION, FILE_ARG,
    READ, SEARCH,
};
use parsec_engine::pystr::{
    char_len, char_prefix, py_has_content, py_is_space, py_json_dumps_opts, py_split_ws,
    py_splitlines, py_strip,
};
use serde_json::Value;

const CASES: usize = 150;

const BREAKS: [char; 10] = [
    '\n', '\r', '\x0b', '\x0c', '\x1c', '\x1d', '\x1e', '\u{85}', '\u{2028}', '\u{2029}',
];

/// A generator of pseudo-random numbers.
struct Draw(u64);

impl Draw {
    fn new() -> Self {
        Draw(0x7061_7273_6563)
    }

    fn next(&mut self) -> u64 {
        self.0 ^= self.0 << 13;
        self.0 ^= self.0 >> 7;
        self.0 ^= self.0 << 17;
        self.0
    }

    fn below(&mut self, n: usize) -> usize {
        (self.next() % n as u64) as usize
    }

    fn flip(&mut self) -> bool {
        self.below(2) == 0
    }

    fn pick<'a>(&mut self, list: &[&'a str]) -> &'a str {
        list[self.below(list.len())]
    }

    fn char(&mut self) -> char {
        loop {
            let limit = [0x80, 0x800, 0x10000, 0x110000][self.below(4)];
            if let Some(c) = char::from_u32(self.below(limit) as u32) {
                return c;
            }
        }
    }

    /// Text weighted towards line breaks, whitespace and characters of several bytes.
    fn text(&mut self) -> String {
        let mut s = String::new();
        for _ in 0..self.below(60) {
            match self.below(12) {
                0..=3 => s.push(self.char()),
                4..=6 => s.push_str(self.pick(&["a", "b", "x y", "é", "日本", "😀", "e\u{301}"])),
                7..=8 => s.push(BREAKS[self.below(10)]),
                9 => s.push_str("\r\n"),
                _ => s.push_str(self.pick(&[" ", "\t", "\x1f", "\u{a0}", "\u{3000}", "\u{200b}"])),
            }
        }
        s
    }

    fn finite(&mut self) -> f64 {
        loop {
            let f = match self.below(3) {
                0 => f64::from_bits(self.next()),
                1 => self.below(1_000_000) as f64 / 64.0,
                _ => self.below(1000) as f64,
            };
            if f.is_finite() {
                return f;
            }
        }
    }

    fn value(&mut self, depth: usize) -> Value {
        match self.below(if depth == 0 { 6 } else { 8 }) {
            0 => Value::Null,
            1 => Value::Bool(self.flip()),
            2 => Value::from(self.next() as i64),
            3 => Value::from(self.next()),
            4 => Value::from(self.finite()),
            5 => Value::String(self.text()),
            6 => Value::Array((0..self.below(5)).map(|_| self.value(depth - 1)).collect()),
            _ => {
                let mut map = serde_json::Map::new();
                for _ in 0..self.below(5) {
                    let key = self.text();
                    let value = self.value(depth - 1);
                    map.insert(key, value);
                }
                Value::Object(map)
            }
        }
    }
}

/// The number as the library holds it: shortest digits, with ties to the even digit.
fn float_of(f: f64) -> Float {
    let mut sci = format!("{:e}", f);
    if let Some(precision) = tie_precision(&sci) {
        let even = format!("{:.*e}", precision, f);
        if even.parse::<f64>().is_ok_and(|g| g.to_bits() == f.to_bits()) {
            sci = even;
        }
    }
    Float::from_scientific(&sci).expect("{:e} is scientific notation")
}

fn json_of(v: &Value) -> Json {
    match v {
        Value::Null => Json::Null,
        Value::Bool(b) => Json::Bool(*b),
        Value::Number(n) => Json::Number(match (n.as_u64(), n.as_i64()) {
            (Some(u), _) => Number::Unsigned(u),
            (None, Some(i)) => Number::Signed(i),
            (None, None) => Number::Float(float_of(n.as_f64().unwrap_or(0.0))),
        }),
        Value::String(s) => Json::Str(s.clone()),
        Value::Array(a) => Json::Array(a.iter().map(json_of).collect()),
        Value::Object(o) => Json::Object(o.iter().map(|(k, v)| (k.clone(), json_of(v))).collect()),
    }
}

fn sorted_keys(v: &Value) -> Value {
    match v {
        Value::Array(a) => Value::Array(a.iter().map(sorted_keys).collect()),
        Value::Object(o) => {
            let mut entries: Vec<_> = o.iter().collect();
            entries.sort_by(|a, b| a.0.cmp(b.0));
            Value::Object(entries.into_iter().map(|(k, v)| (k.clone(), sorted_keys(v))).collect())
        }
        other => other.clone(),
    }
}

/// Byte offset of a subslice within the string it was sliced from.
fn offset(outer: &str, inner: &str) -> usize {
    inner.as_ptr() as usize - outer.as_ptr() as usize
}

fn content_lines<'a>(lines: impl IntoIterator<Item = &'a str>) -> Vec<&'a str> {
    lines.into_iter().filter(|l| py_has_content(l)).collect()
}

/// The lines of every chunk in order.
fn chunk_lines(chunks: &[Chunk]) -> Vec<&str> {
    chunks.iter().flat_map(|c| c.text.split('\n')).collect()
}

fn solid(s: &str) -> String {
    s.chars().filter(|c| !py_is_space(*c)).collect()
}

#[test]
fn splitlines_lines_and_separators_tile_the_input() {
    let mut draw = Draw::new();
    for _ in 0..CASES {
        let s = draw.text();
        let lines = py_splitlines(&s);
        let mut pos = 0;
        for (i, line) in lines.iter().enumerate() {
            assert_eq!(offset(&s, line), pos, "line {i} starts right after the previous break");
            assert!(!line.contains(BREAKS), "line {i} contains a break: {line:?}");
            let end = pos + line.len();
            let rest = &s[end..];
            let sep = if rest.starts_with("\r\n") {
                2
            } else {
                rest.chars().next().map_or(0, char::len_utf8)
            };
            if i + 1 < lines.len() {
                assert!(sep > 0, "consecutive lines need a break between them");
            }
            if let Some(c) = rest.chars().next() {
                assert!(BREAKS.contains(&c), "line {i} ended on a non-break {c:?}");
            }
            pos = end + sep;
        }
        assert_eq!(pos, s.len(), "all input consumed");
    }
}

#[test]
fn strip_removes_only_whitespace_and_is_idempotent() {
    let mut draw = Draw::new();
    for _ in 0..CASES {
        let s = draw.text();
        let t = py_strip(&s);
        let start = offset(&s, t);
        assert!(s[..start].chars().all(py_is_space));
        assert!(s[start + t.len()..].chars().all(py_is_space));
        assert!(!t.starts_with(py_is_space) && !t.ends_with(py_is_space));
        assert_eq!(py_strip(t), t);
        assert_eq!(py_has_content(&s), !t.is_empty());
    }
}

#[test]
fn split_ws_keeps_every_non_space_char_in_order() {
    let mut draw = Draw::new();
    for _ in 0..CASES {
        let s = draw.text();
        let parts = py_split_ws(&s);
        assert!(parts.iter().all(|p| !p.is_empty() && !p.contains(py_is_space)));
        assert_eq!(parts.concat(), solid(&s));
    }
}

#[test]
fn char_prefix_and_char_len_agree() {
    let mut draw = Draw::new();
    for _ in 0..CASES {
        let s = draw.text();
        let n = draw.below(80);
        let len = char_len(&s);
        assert!(len <= s.len());
        let p = char_prefix(&s, n);
        assert!(s.starts_with(p));
        assert_eq!(char_len(p), n.min(len));
        assert_eq!(char_prefix(&s, len), s.as_str());
    }
}

#[test]
fn code_point_order_matches_utf8_byte_order() {
    let mut draw = Draw::new();
    for _ in 0..CASES {
        let mut keys = vec![draw.text(), draw.text()];
        keys.dedup();
        let entries = keys.iter().map(|k| (k.clone(), Json::Null)).collect();
        let got = py_json_dumps_opts(&Json::Object(entries), true, false);
        keys.sort_by(|a, b| a.as_bytes().cmp(b.as_bytes()));
        let entries = keys.iter().map(|k| (k.clone(), Json::Null)).collect();
        assert_eq!(got, py_json_dumps_opts(&Json::Object(entries), false, false));
    }
}

#[test]
fn float_repr_round_trips_exactly() {
    let mut draw = Draw::new();
    for _ in 0..CASES * 10 {
        let f = draw.finite();
        let r = py_float_repr(&float_of(f));
        assert!(r.contains('.') || r.contains('e'), "{r} looks like an int");
        let back: f64 = r.parse().expect("a float");
        assert_eq!(back.to_bits(), f.to_bits(), "{r}");
    }
}

#[test]
fn json_dumps_parses_back_to_the_same_value() {
    let mut draw = Draw::new();
    for _ in 0..CASES {
        let v = draw.value(3);
        let out = py_json_dumps_opts(&json_of(&v), draw.flip(), draw.flip());
        let back: Value = serde_json::from_str(&out).expect("valid JSON");
        assert_eq!(back, v);
    }
}

#[test]
fn json_dumps_ensure_ascii_output_is_printable_ascii() {
    let mut draw = Draw::new();
    for _ in 0..CASES {
        let v = json_of(&draw.value(3));
        let sort = draw.flip();
        let out = py_json_dumps_opts(&v, sort, true);
        assert!(out.chars().all(|c| (' '..='~').contains(&c)), "{out:?}");
        let raw = py_json_dumps_opts(&v, sort, false);
        assert!(raw.chars().all(|c| c >= ' '), "raw control char in {raw:?}");
    }
}

#[test]
fn json_dumps_sort_keys_equals_dumping_presorted_value() {
    let mut draw = Draw::new();
    for _ in 0..CASES {
        let v = draw.value(3);
        let ascii = draw.flip();
        assert_eq!(
            py_json_dumps_opts(&json_of(&v), true, ascii),
            py_json_dumps_opts(&json_of(&sorted_keys(&v)), false, ascii)
        );
    }
}

#[test]
fn json_dumps_sorting_is_stable() {
    let one = || Json::Number(Number::Unsigned(1));
    let entries = vec![
        ("b".to_string(), Json::Null),
        ("a".to_string(), one()),
        ("b".to_string(), one()),
        ("a".to_string(), Json::Null),
    ];
    assert_eq!(
        py_json_dumps_opts(&Json::Object(entries), true, true),
        r#"{"a": 1, "a": null, "b": null, "b": 1}"#
    );
}

#[test]
fn grep_candidate_never_panics_and_returns_a_basename() {
    let mut draw = Draw::new();
    for _ in 0..CASES {
        let mut line = draw.text();
        if draw.flip() {
            line = format!("src/{line}.rs:{}:{}", draw.below(500), draw.text());
        }
        if let Some((file, n)) = parse_grep_candidate(&line) {
            assert!(!file.contains('/'));
            assert!(n.is_none_or(|n| n >= 0));
            assert!(py_has_content(&line));
        }
    }
}

#[test]
fn assistant_chunks_cover_every_content_line() {
    let mut draw = Draw::new();
    for _ in 0..CASES {
        let txt = draw.text();
        let win = 1 + draw.below(11);
        let step = draw.below(50) as i64;
        let chunks = chunk_assistant(&txt, step, win);
        assert_eq!(content_lines(chunk_lines(&chunks)), content_lines(py_splitlines(&txt)));
        for c in &chunks {
            assert!(py_has_content(&c.text));
            assert!(c.text.split('\n').count() <= win);
            assert_eq!((c.kind.as_str(), c.step), ("asst", step));
        }
        assert_eq!(chunk_assistant(&txt, step, 0), chunk_assistant(&txt, step, 1));
    }
}

#[test]
fn other_output_chunks_cover_every_content_line() {
    let mut draw = Draw::new();
    for _ in 0..CASES {
        let obs = draw.text();
        let win = 1 + draw.below(11);
        let chunks = chunk_observation("pytest -q", &obs, 0, win, None, ChunkMode::Fixed, None);
        assert!(!chunks.is_empty());
        assert_eq!(content_lines(chunk_lines(&chunks)), content_lines(py_splitlines(&obs)));
        if py_has_content(&obs) {
            assert!(chunks.iter().all(|c| py_has_content(&c.text)));
        }
    }
}

#[test]
fn grep_output_chunks_cover_every_content_line() {
    let mut draw = Draw::new();
    for _ in 0..CASES / 5 {
        let lines: Vec<String> = (0..draw.below(12))
            .map(|_| {
                let t = draw.text();
                if draw.flip() {
                    t
                } else {
                    format!("src/f.rs:{}:{t}", draw.below(500))
                }
            })
            .collect();
        let obs = lines.join("\n");
        let win = 1 + draw.below(5);
        let chunks = chunk_observation("grep -rn foo src", &obs, 0, win, None, ChunkMode::Fixed, None);
        assert!(!chunks.is_empty());
        assert_eq!(content_lines(chunk_lines(&chunks)), content_lines(py_splitlines(&obs)));
    }
}

#[test]
fn read_chunks_have_contiguous_line_ranges() {
    let mut draw = Draw::new();
    for _ in 0..CASES {
        let obs = draw.text();
        let win = 1 + draw.below(11);
        let chunks = chunk_observation("sed -n '100,300p' a.py", &obs, 0, win, None, ChunkMode::Fixed, None);
        let lines = py_splitlines(&obs);
        if lines.is_empty() {
            assert_eq!(chunks.len(), 1);
            assert_eq!((chunks[0].lo, chunks[0].hi), (None, None));
            continue;
        }
        assert_eq!(chunk_lines(&chunks), lines);
        let mut next = 100;
        for c in &chunks {
            let (lo, hi) = (c.lo.unwrap_or(-1), c.hi.unwrap_or(-1));
            assert_eq!(lo, next);
            assert_eq!(hi - lo + 1, c.text.split('\n').count() as i64);
            assert!(hi - lo < win as i64);
            next = hi + 1;
        }
        assert_eq!(next, 100 + lines.len() as i64);
    }
}

#[test]
fn read_line_numbers_stop_at_the_largest() {
    let cmd = format!("sed -n '{},{}p' a.py", i64::MAX - 1, i64::MAX);
    let chunks = chunk_observation(&cmd, "a\nb\nc\nd", 0, 2, None, ChunkMode::Fixed, None);
    let got: Vec<_> = chunks.iter().map(|c| (c.lo, c.hi)).collect();
    assert_eq!(
        got,
        vec![
            (Some(i64::MAX - 1), Some(i64::MAX)),
            (Some(i64::MAX), Some(i64::MAX))
        ]
    );
    assert_eq!(chunk_lines(&chunks), vec!["a", "b", "c", "d"]);
}

#[test]
fn read_lines_chunks_keep_content_lines_with_increasing_coordinates() {
    let mut draw = Draw::new();
    for _ in 0..CASES {
        let obs = draw.text();
        let g = 1 + draw.below(7);
        let chunks = chunk_observation("cat a.py", &obs, 0, 40, Some(g), ChunkMode::Fixed, None);
        assert!(!chunks.is_empty());
        let lines = py_splitlines(&obs);
        if !lines.iter().any(|l| py_has_content(l)) {
            assert_eq!(chunks.len(), 1);
            assert_eq!(chunks[0].text.as_str(), obs.as_str());
            continue;
        }
        assert_eq!(chunk_lines(&chunks), content_lines(lines));
        let mut prev_hi = 0;
        for c in &chunks {
            let (lo, hi) = (c.lo.unwrap_or(-1), c.hi.unwrap_or(-1));
            assert!(prev_hi < lo && lo <= hi);
            assert!(c.text.split('\n').count() <= g);
            prev_hi = hi;
        }
    }
}

const COMMANDS: [&str; 8] = [
    "cat a.py",
    "sed -n '5,9p' src/x.rs",
    "sed -n 3p b.go",
    "grep -rn foo .",
    "find . -name '*.py'",
    "pytest -q",
    "ls",
    "head -n 20 c.ts",
];

#[test]
fn chunk_observation_never_panics() {
    let mut draw = Draw::new();
    for _ in 0..CASES {
        let cmd = if draw.flip() {
            draw.pick(&COMMANDS).to_string()
        } else {
            draw.text()
        };
        let obs = draw.text();
        let win = draw.below(50);
        let read_lines = if draw.flip() {
            Some(1 + draw.below(49))
        } else {
            None
        };
        let chunks = chunk_observation(&cmd, &obs, 0, win, read_lines, ChunkMode::Fixed, None);
        assert!(!chunks.is_empty());
        assert!(chunks
            .iter()
            .all(|c| c.tokens >= 1 && c.head == char_prefix(&obs, 240) && c.cmd == char_prefix(&cmd, 300)));
        // Every character that is not whitespace lands in exactly one chunk, in order.
        let all: String = chunks.iter().map(|c| c.text.as_str()).collect();
        assert_eq!(solid(&all), solid(&obs));
    }
}

#[test]
fn accumulated_chunks_grow_in_step_order() {
    let mut draw = Draw::new();
    let steps: Vec<(String, String)> = (0..6)
        .map(|_| (draw.pick(&COMMANDS).to_string(), draw.text()))
        .collect();
    let mut before: Vec<Chunk> = Vec::new();
    for upto in 0..steps.len() {
        let now = accumulated_chunks(&steps, upto, Some(3), ChunkMode::Fixed, &[]);
        assert_eq!(&now[..before.len()], &before[..]);
        assert!(now[before.len()..].iter().all(|c| c.step == upto as i64));
        assert!(now.len() > before.len());
        before = now;
    }
    assert_eq!(accumulated_chunks(&steps, 100, Some(3), ChunkMode::Fixed, &[]), before);
}

fn role_count(msgs: &[Value], roles: &[&str]) -> i64 {
    msgs.iter()
        .filter(|m| m.get("role").and_then(Value::as_str).is_some_and(|r| roles.contains(&r)))
        .count() as i64
}

#[test]
fn message_parsing_is_total_and_step_aligned() {
    let mut draw = Draw::new();
    for _ in 0..CASES {
        let msgs: Vec<Value> = (0..draw.below(12))
            .map(|_| {
                if draw.below(4) == 0 {
                    return draw.value(2);
                }
                let mut m = serde_json::Map::new();
                let role = draw.pick(&["assistant", "user", "tool", "system"]);
                m.insert("role".to_string(), Value::from(role));
                m.insert("content".to_string(), draw.value(2));
                let mut act = serde_json::Map::new();
                act.insert("command".to_string(), draw.value(1));
                act.insert("query".to_string(), draw.value(1));
                let mut extra = serde_json::Map::new();
                extra.insert("actions".to_string(), Value::Array(vec![Value::Object(act)]));
                m.insert("extra".to_string(), Value::Object(extra));
                m.insert("reasoning_content".to_string(), draw.value(2));
                Value::Object(m)
            })
            .collect();
        let held: Vec<Json> = msgs.iter().map(json_of).collect();
        let steps = steps_of(&held).len() as i64;
        assert!(steps <= role_count(&msgs, &["assistant"]));
        assert!(steps <= role_count(&msgs, &["user", "tool"]));

        let reasoning = reasoning_chunks_of(&held);
        assert!(reasoning.windows(2).all(|w| w[0].step < w[1].step));
        for c in &reasoning {
            assert!(c.step < steps && c.tokens > 0 && c.evict == "provider");
        }
        let asst = assistant_chunks_of(&held);
        assert!(asst.windows(2).all(|w| w[0].step <= w[1].step));
        assert!(asst.iter().all(|c| c.step < steps && py_has_content(&c.text)));
        assert!(held.iter().all(|m| blob_tokens(m) >= 0));
    }
}

fn is_word(c: char) -> bool {
    c.is_ascii_alphanumeric() || c == '_'
}

/// One of the words stands in the ASCII text with no word character beside it.
fn has_word(text: &str, words: &[&str]) -> bool {
    words.iter().any(|w| {
        text.match_indices(w).any(|(i, _)| {
            !text[..i].ends_with(is_word) && !text[i + w.len()..].starts_with(is_word)
        })
    })
}

#[test]
fn tool_names_count_as_whole_words() {
    let search = ["grep", "rg", "egrep", "fgrep", "ag", "ack", "find", "git grep"];
    let read = ["cat", "sed", "head", "tail", "less", "more", "nl", "awk", "view", "open"];
    let pieces = [
        "grep", "rg", "ag", "ack", "find", "git", " ", "_", "-", "1", "cat", "sed", "head", "nl",
        "awk", "e", "open", "/", "\n", ".",
    ];
    let mut draw = Draw::new();
    for _ in 0..CASES {
        let cmd: String = (0..draw.below(6)).map(|_| draw.pick(&pieces)).collect();
        assert_eq!(is_search(&cmd), has_word(&cmd, &search), "{cmd:?}");
        assert_eq!(is_read(&cmd), has_word(&cmd, &read), "{cmd:?}");
    }
    // Beyond ASCII the pattern decides: é is a word character and 、 is not.
    assert!(!is_search("égrep x"));
    assert!(is_search("、grep x"));
    assert!(!is_read("caté"));
    for pattern in [SEARCH, READ, FILE_ARG, EXTENSION] {
        assert!(regex::Regex::new(pattern).is_ok());
    }
}

#[test]
fn file_names_are_told_by_their_suffix() {
    let pieces = [".", "a", "Z", "9", "_", "é", "\n", "/", "ab", "-"];
    let mut draw = Draw::new();
    for _ in 0..CASES * 2 {
        let word: String = (0..draw.below(8)).map(|_| draw.pick(&pieces)).collect();
        let chars: Vec<char> = word.chars().collect();
        let suffix = chars.windows(2).any(|w| w[0] == '.' && w[1].is_ascii_alphabetic());
        assert_eq!(is_file_arg(&word), suffix, "{word:?}");
        let extension = (0..chars.len()).any(|i| {
            let tail = &chars[i + 1..];
            chars[i] == '.'
                && (1..=5).contains(&tail.len())
                && tail[0].is_ascii_alphabetic()
                && tail.iter().all(|c| c.is_ascii_alphanumeric())
        });
        assert_eq!(has_extension(&word), extension, "{word:?}");
    }
}

#[test]
fn addresses_and_statuses_are_what_the_patterns_capture() {
    let some = |s: &str| Some(s.to_string());
    assert_eq!(find_address("sed -n 12,34p a.py"), some("12"));
    assert_eq!(find_address("sed -n 7p a.py"), some("7"));
    assert_eq!(find_address("sed -n '7p' a.py"), some("7"));
    assert_eq!(find_address("sed -n 7p a.py; sed -n 8,9p"), some("8"));
    assert_eq!(find_address("cat a.py"), None);
    // A digit beyond ASCII is captured, and denotes no line.
    assert_eq!(find_address("sed -n ٣p a.py"), some("٣"));
    assert_eq!(find_status("<returncode> -1 </returncode>"), some("-1"));
    assert_eq!(find_status("x returncode=7 <returncode>8</returncode>"), some("7"));
    assert_eq!(find_status("no status"), None);
}

#[test]
fn setting_names_the_mode() {
    for s in ["cst", "CST", "cSt"] {
        assert_eq!(ChunkMode::from_setting(s), ChunkMode::Cst, "{s:?}");
    }
    for s in ["", "fixed", "cs", "csts", " cst", "cst ", "ſst"] {
        assert_eq!(ChunkMode::from_setting(s), ChunkMode::Fixed, "{s:?}");
    }
    assert_eq!(ChunkMode::default(), ChunkMode::Fixed);
}

#[test]
fn scientific_notation_is_read_or_refused() {
    let f = Float::from_scientific("-1.25e-7").unwrap();
    assert_eq!((f.negative, f.digits.as_str(), f.exponent), (true, "125", -7));
    assert_eq!(py_float_repr(&f), "-1.25e-07");
    let f = Float::from_scientific("5e0").unwrap();
    assert_eq!((f.negative, f.digits.as_str(), f.exponent), (false, "5", 0));
    for s in ["", "1", "e1", "1.5", "1e", "1ex", "xe1", "1e99999999999", "--1e1"] {
        assert!(Float::from_scientific(s).is_none(), "{s:?}");
    }
    assert_eq!(tie_precision("1e0"), None);
    assert_eq!(tie_precision("1.25e3"), Some(2));
    assert_eq!(tie_precision("-7.792352790454353e14"), Some(15));
    assert_eq!(tie_precision("no exponent"), None);
}

#[test]
fn segmenter_is_asked_only_where_its_answer_counts() {
    let obs = "def f():\n\n    pass\n";
    let asked = segmenter_request("sed -n '10,12p' a.py", obs, Some(2), ChunkMode::Cst);
    assert_eq!(asked, Some((Some("a.py".to_string()), vec![(10, "def f():"), (12, "    pass")])));
    assert_eq!(segmenter_request("cat a.py", obs, None, ChunkMode::Cst), None);
    assert_eq!(segmenter_request("cat a.py", obs, Some(2), ChunkMode::Fixed), None);
    assert_eq!(segmenter_request("pytest", obs, Some(2), ChunkMode::Cst), None);
    assert_eq!(segmenter_request("grep -n f a.py", obs, Some(2), ChunkMode::Cst), None);
    assert_eq!(segmenter_request("cat a.py", " \n", Some(2), ChunkMode::Cst), None);
}

#[test]
fn atoms_of_a_segmenter_become_chunks() {
    let obs = "def f():\n\n    pass\n";
    let atoms = vec![CstAtom {
        lo: 1,
        hi: 3,
        text: "def f():\n    pass".to_string(),
        class: "func".to_string(),
    }];
    let chunks = chunk_observation("cat a.py", obs, 4, 40, Some(1), ChunkMode::Cst, Some(&atoms));
    assert_eq!(chunks.len(), 1);
    let c = &chunks[0];
    assert_eq!((c.text.as_str(), c.struct_class.as_str()), ("def f():\n    pass", "func"));
    assert_eq!((c.lo, c.hi, c.step, c.kind.as_str()), (Some(1), Some(3), 4, "read"));
    assert_eq!((c.file.as_deref(), c.cmd.as_str(), c.head.as_str()), (Some("a.py"), "cat a.py", obs));
    // Under fixed windows, for another command, or without lines, the atoms do not count.
    for (cmd, text, mode) in [
        ("cat a.py", obs, ChunkMode::Fixed),
        ("pytest", obs, ChunkMode::Cst),
        ("cat a.py", "\n", ChunkMode::Cst),
    ] {
        assert_eq!(
            chunk_observation(cmd, text, 0, 40, Some(1), mode, Some(&atoms)),
            chunk_observation(cmd, text, 0, 40, Some(1), mode, None)
        );
    }
    // A segmenter that finds nothing leaves the observation whole.
    let none = chunk_observation("cat a.py", obs, 0, 40, Some(1), ChunkMode::Cst, Some(&Vec::new()));
    assert_eq!(none.len(), 1);
    assert_eq!(none[0].text, obs);
}

#[test]
fn accumulated_chunks_take_the_atoms_of_their_steps() {
    let steps = [
        ("cat a.py".to_string(), "x\ny".to_string()),
        ("pytest".to_string(), "ok".to_string()),
        ("cat b.py".to_string(), "z".to_string()),
    ];
    let atom = CstAtom { lo: 1, hi: 2, text: "x\ny".to_string(), class: "body".to_string() };
    let atoms = [Some(vec![atom])];
    let got = |mode: ChunkMode| -> Vec<(String, i64, String)> {
        accumulated_chunks(&steps, 2, Some(1), mode, &atoms)
            .into_iter()
            .map(|c| (c.text, c.step, c.struct_class))
            .collect()
    };
    let want = |text: &str, step: i64, class: &str| (text.to_string(), step, class.to_string());
    assert_eq!(
        got(ChunkMode::Cst),
        vec![want("x\ny", 0, "body"), want("ok", 1, ""), want("z", 2, "")]
    );
    assert_eq!(
        got(ChunkMode::Fixed),
        vec![want("x", 0, ""), want("y", 0, ""), want("ok", 1, ""), want("z", 2, "")]
    );
}

/// The length of the run at the start whose characters `p` accepts.
fn run(s: &[char], p: fn(char) -> bool) -> usize {
    s.iter().take_while(|c| p(**c)).count()
}

fn digit(c: char) -> bool {
    c.is_ascii_digit()
}

fn free(s: &[char], i: usize) -> bool {
    i == 0 || !is_word(s[i - 1])
}

/// What the pieces of a range or of a single line are at the start of `s`.
fn range(s: &[char]) -> Option<String> {
    let a = run(s, digit);
    let rest = s[a..].strip_prefix(&[','])?;
    let b = run(rest, digit);
    let found = a > 0 && b > 0 && rest[b..].starts_with(&['p']);
    found.then_some(s[..a].iter().collect())
}

fn single(s: &[char]) -> Option<String> {
    let rest = s.strip_prefix(&['s', 'e', 'd'])?;
    let a = run(rest, py_is_space);
    let rest = rest[a..].strip_prefix(&['-', 'n'])?;
    let b = run(rest, py_is_space);
    let rest = &rest[b..];
    let rest = rest.strip_prefix(&['\'']).or(rest.strip_prefix(&['"'])).unwrap_or(rest);
    let n = run(rest, digit);
    let found = a > 0 && b > 0 && n > 0 && rest[n..].starts_with(&['p']);
    found.then_some(rest[..n].iter().collect())
}

fn leftmost(s: &[char], at: fn(&[char]) -> Option<String>) -> Option<String> {
    (0..s.len()).filter(|i| free(s, *i)).find_map(|i| at(&s[i..]))
}

#[test]
fn addresses_in_ascii_are_the_leftmost() {
    let pieces = [
        "sed", " ", "-n", "'", "\"", "1", "23", ",", "p", "x", "_", "\x1c", "\t", "sed -n ", "4,5p", "6p",
    ];
    let mut draw = Draw::new();
    let mut hits = 0;
    for _ in 0..CASES * 4 {
        let cmd: String = (0..draw.below(10)).map(|_| draw.pick(&pieces)).collect();
        let s: Vec<char> = cmd.chars().collect();
        let want = leftmost(&s, range).or_else(|| leftmost(&s, single));
        hits += want.is_some() as usize;
        assert_eq!(find_address(&cmd), want, "{cmd:?}");
    }
    assert!(hits > 20);
}

/// The number at the start, with a minus or without, and what follows it.
fn number(s: &[char]) -> Option<(String, &[char])> {
    let s = &s[run(s, py_is_space)..];
    let sign = run(&s[..s.len().min(1)], |c| c == '-');
    let n = run(&s[sign..], digit);
    (n > 0).then_some((s[..sign + n].iter().collect(), &s[sign + n..]))
}

fn word<'a>(s: &'a [char], w: &str) -> Option<&'a [char]> {
    let n = w.len();
    let found = s.len() >= n && s[..n].iter().map(char::to_ascii_lowercase).eq(w.chars());
    if found {
        Some(&s[n..])
    } else {
        None
    }
}

fn tag(s: &[char]) -> Option<String> {
    let (n, rest) = number(word(s, "<returncode>")?)?;
    word(&rest[run(rest, py_is_space)..], "</returncode>")?;
    Some(n)
}

fn key(s: &[char]) -> Option<String> {
    let rest = word(s, "returncode")?;
    let rest = rest.strip_prefix(&[':']).or(rest.strip_prefix(&['=']))?;
    Some(number(rest)?.0)
}

#[test]
fn statuses_in_ascii_are_the_leftmost() {
    let pieces = [
        "<returncode>", "</returncode>", "returncode", "ReturnCode", "<RETURNCODE>", ":", "=", "-", "1",
        "42", " ", "\x1f", "\n", "x", "_", "returncode=7", "<returncode>8</returncode>",
    ];
    let mut draw = Draw::new();
    let mut hits = 0;
    for _ in 0..CASES * 4 {
        let obs: String = (0..draw.below(8)).map(|_| draw.pick(&pieces)).collect();
        let s: Vec<char> = obs.chars().collect();
        let want = (0..s.len()).find_map(|i| {
            tag(&s[i..]).or_else(|| if free(&s, i) { key(&s[i..]) } else { None })
        });
        hits += want.is_some() as usize;
        assert_eq!(find_status(&obs), want, "{obs:?}");
    }
    assert!(hits > 20);
}

#[test]
fn ranges_and_lines_start_the_output() {
    for (a, b) in [(0, 5), (10, 20), (20, 10), (7, 7)] {
        for head in ["sed -n '", "sed -n ", "nl -ba x | sed -n \"", ""] {
            assert_eq!(sed_base(&format!("{head}{a},{b}p' f.py")), a);
        }
    }
    for quote in ["", "'", "\""] {
        assert_eq!(sed_base(&format!("sed \t-n\x1c {quote}42p{quote} f.py")), 42);
    }
    assert_eq!(obs_rc("<returncode>\t-7 </returncode>\nmore"), Some(-7));
    assert_eq!(obs_rc("returncode: 3\nmore"), Some(3));
    assert_eq!(obs_rc("returncode=-9223372036854775808"), Some(i64::MIN));
}

#[test]
fn atoms_that_keep_the_lines_cover_the_observation() {
    let obs = "import os\n\ndef f():\n    pass\n";
    let atom = |lo: i64, hi: i64, text: &str, class: &str| CstAtom {
        lo,
        hi,
        text: text.to_string(),
        class: class.to_string(),
    };
    let atoms = vec![atom(1, 1, "import os", "import"), atom(3, 4, "def f():\n    pass", "func")];
    let chunks = chunk_observation("cat a.py", obs, 0, 40, Some(9), ChunkMode::Cst, Some(&atoms));
    assert_eq!(chunks.len(), 2);
    assert_eq!(content_lines(chunk_lines(&chunks)), content_lines(py_splitlines(obs)));
    let all: String = chunks.iter().map(|c| c.text.as_str()).collect();
    assert_eq!(solid(&all), solid(obs));
}
