use parsec_engine::chunking::{
    accumulated_chunks, chunk_assistant, chunk_observation, obs_rc, parse_grep_candidate, sed_base,
    Chunk, ChunkMode,
};
use parsec_engine::pystr::{char_len, char_prefix, py_has_content, py_splitlines};

#[test]
fn line_numbers_beyond_i64_saturate_not_abort() {
    // The line stays a grep chunk; only its coordinate saturates.
    let got = parse_grep_candidate("a.py:12345678901234567890:huge").unwrap();
    assert_eq!(got, ("a.py".to_string(), Some(i64::MAX)));
    assert_eq!(
        sed_base("sed -n '99999999999999999999,99999999999999999999p' f.py"),
        i64::MAX
    );
}

type GrepHit = Option<(&'static str, Option<i64>)>;

/// Checks each (input line, expected hit) pair, naming the input on failure.
fn check_grep(cases: &[(&str, GrepHit)]) {
    for (line, want) in cases {
        let want = want.map(|(f, n)| (f.to_string(), n));
        assert_eq!(parse_grep_candidate(line), want, "input: {line:?}");
    }
}

fn check_sed_base(cases: &[(&str, i64)]) {
    for (cmd, want) in cases {
        assert_eq!(sed_base(cmd), *want, "cmd: {cmd:?}");
    }
}

fn check_obs_rc(cases: &[(&str, Option<i64>)]) {
    for (obs, want) in cases {
        assert_eq!(obs_rc(obs), *want, "obs: {obs:?}");
    }
}

fn texts(chunks: &[Chunk]) -> Vec<&str> {
    chunks.iter().map(|c| c.text.as_str()).collect()
}

fn ranges(chunks: &[Chunk]) -> Vec<(Option<i64>, Option<i64>)> {
    chunks.iter().map(|c| (c.lo, c.hi)).collect()
}

/// n lines "l1".."ln" joined by \n.
fn numbered(n: usize) -> String {
    (1..=n)
        .map(|i| format!("l{i}"))
        .collect::<Vec<_>>()
        .join("\n")
}

/// Full-coverage invariant for the windowed paths: chunks are windows of
/// py_splitlines(obs) joined by \n, so splitting every chunk back on \n
/// must give the original lines in order, minus only whole windows that
/// held no content.
fn assert_full_coverage(obs: &str, chunks: &[Chunk]) {
    let from_chunks: Vec<&str> = chunks.iter().flat_map(|c| c.text.split('\n')).collect();
    let orig = py_splitlines(obs);
    let non_blank = |v: &[&str]| -> Vec<String> {
        v.iter()
            .filter(|l| py_has_content(l))
            .map(|l| l.to_string())
            .collect()
    };
    assert_eq!(
        non_blank(&from_chunks),
        non_blank(&orig),
        "a content line was dropped, duplicated or reordered"
    );
    assert!(from_chunks.len() <= orig.len().max(1));
}

#[test]
fn grep_candidate_standard_path_line_text() {
    check_grep(&[
        (
            "src/engine/chunking.rs:42:    let x = 1;",
            Some(("chunking.rs", Some(42))),
        ),
        ("a.py:1:x", Some(("a.py", Some(1)))),
    ]);
}

#[test]
fn grep_candidate_colons_in_matched_text_stay_in_text() {
    check_grep(&[
        (
            "cfg/app.yaml:7:url: http://host:8080/x",
            Some(("app.yaml", Some(7))),
        ),
        ("a.py:3::::", Some(("a.py", Some(3)))),
    ]);
}

#[test]
fn grep_candidate_strips_whitespace_around_line_and_number() {
    check_grep(&[
        ("a.py: 7 :x", Some(("a.py", Some(7)))),
        ("\x1c\t a.py:3:x \u{3000}", Some(("a.py", Some(3)))),
    ]);
}

#[test]
fn grep_candidate_space_before_first_colon_loses_line_number() {
    // "a.py " fails the extension check, so
    // only the whitespace-split fallback matches.
    check_grep(&[("a.py : 7 :x", Some(("a.py", None)))]);
}

#[test]
fn grep_candidate_missing_or_non_numeric_line_numbers() {
    check_grep(&[
        ("a.py::text", Some(("a.py", None))),
        ("a.py:abc:text", Some(("a.py", None))),
        ("a.py:12a:text", Some(("a.py", None))),
        ("a.py:-3:text", Some(("a.py", None))),
        ("a.py:+3:text", Some(("a.py", None))),
        ("a.py:", Some(("a.py", None))),
    ]);
}

#[test]
fn grep_candidate_two_fields_never_reads_the_number() {
    // "file:42" with no third field.
    check_grep(&[("a.py:42", Some(("a.py", None)))]);
}

#[test]
fn grep_candidate_empty_match_text_keeps_line_number() {
    check_grep(&[
        ("a.py:42:", Some(("a.py", Some(42)))),
        ("a.py:0:", Some(("a.py", Some(0)))),
    ]);
}

#[test]
fn grep_candidate_bare_paths_from_find_or_files_with_matches() {
    check_grep(&[
        ("./src/lib.rs", Some(("lib.rs", None))),
        ("dir/sub", Some(("sub", None))),
        ("notes.txt matched here", Some(("notes.txt", None))),
    ]);
}

#[test]
fn grep_candidate_trailing_slash_gives_empty_basename() {
    // still treated as a path.
    check_grep(&[("./src/", Some(("", None)))]);
}

#[test]
fn grep_candidate_rejects_blank_reranked_and_non_path_lines() {
    check_grep(&[
        ("", None),
        (" \t\x1f\u{2028}", None),
        ("[reranked 12 results]", None),
        ("   [reranked", None),
        ("error: something failed", None),
        ("Binary file matches", None),
        ("README", None),
    ]);
}

#[test]
fn grep_candidate_ignores_files_without_extension_or_slash() {
    // Makefile/Dockerfile hits are dropped.
    check_grep(&[
        ("Makefile:3:all: build", None),
        ("Dockerfile:1:FROM x", None),
    ]);
}

#[test]
fn grep_candidate_extension_rules() {
    check_grep(&[
        ("a.tar.gz:1:x", Some(("a.tar.gz", Some(1)))),
        ("model.h5:1:x", Some(("model.h5", Some(1)))),
        // Extension must start with a letter and be at most 5 chars.
        ("v1.2:3:x", None),
        ("notes.markdown:1:x", None),
    ]);
}

#[test]
fn grep_candidate_windows_paths() {
    // none of these are handled like POSIX paths.
    check_grep(&[
        // Backslashes are not separators, so the "basename" keeps them.
        ("src\\file.rs:10:code", Some(("src\\file.rs", Some(10)))),
        // The drive-letter colon is taken as the first field separator.
        ("C:\\project\\file.rs:10:code", None),
        // The whitespace fallback grabs the whole token, and the basename
        // swallows the line number and text.
        (
            "C:/project/file.rs:10:code",
            Some(("file.rs:10:code", None)),
        ),
    ]);
}

#[test]
fn grep_candidate_colon_in_file_name() {
    // the first colon always splits fields, so
    // the name is cut at it.
    check_grep(&[
        ("my:file.py:3:x", None),
        ("dir:v2/file.py:3:x", Some(("file.py:3:x", None))),
    ]);
}

#[test]
fn sed_base_range_forms() {
    check_sed_base(&[
        ("sed -n '10,20p' src/a.py", 10),
        ("sed -n \"10,20p\" a.py", 10),
        ("sed -n 10,20p a.py", 10),
        ("sed -n -e 7,9p a.py", 7),
        ("nl -ba a.py | sed -n '120,160p'", 120),
        // First range wins when several are given.
        ("sed -n '30,40p;1,5p' a.py", 30),
    ]);
}

#[test]
fn sed_base_inverted_and_zero_ranges_take_the_first_number() {
    check_sed_base(&[("sed -n '20,10p' a.py", 20), ("sed -n '0,5p' a.py", 0)]);
}

#[test]
fn sed_base_single_line_address_and_spacing() {
    check_sed_base(&[
        ("sed -n 42p a.py", 42),
        ("sed   -n   42p a.py", 42),
        ("sed\t-n\x1c42p a.py", 42),
    ]);
}

#[test]
fn sed_base_falls_back_to_one() {
    check_sed_base(&[
        ("cat a.py", 1),
        ("head -n 50 a.py", 1),
        ("tail -n +300 a.py", 1),
        ("sed -n '5,$p' a.py", 1),
        ("sed -n 'abc,20p' a.py", 1),
        ("sed -n ',20p' a.py", 1),
        ("sed -n p a.py", 1),
        ("", 1),
    ]);
}

#[test]
fn sed_base_quoted_single_line_address() {
    check_sed_base(&[("sed -n '42p' a.py", 42), ("sed -n \"42p\" a.py", 42)]);
}

#[test]
fn obs_rc_tag_and_key_value_forms() {
    check_obs_rc(&[
        ("<returncode>0</returncode>\nok", Some(0)),
        ("<RETURNCODE> -1 </RETURNCODE>", Some(-1)),
        ("<returncode>\x1c3\x1f</returncode>", Some(3)),
        ("returncode: 2", Some(2)),
        ("Returncode=137", Some(137)),
    ]);
}

#[test]
fn obs_rc_rejects_malformed_or_out_of_range_codes() {
    check_obs_rc(&[
        ("", None),
        ("returncode: abc", None),
        ("xreturncode=1", None),
        ("returncode=99999999999999999999", None),
    ]);
}

#[test]
fn obs_rc_only_looks_at_first_400_chars() {
    // " returncode=1" is 13 chars: 387 + 13 = 400 fits, 388 + 13 cuts the
    // digit off. The space keeps the word boundary (é is a word char).
    let at_limit = format!("{} returncode=1", "é".repeat(387));
    assert_eq!(obs_rc(&at_limit), Some(1));
    let past_limit = format!("{} returncode=1", "é".repeat(388));
    assert_eq!(obs_rc(&past_limit), None);
    assert_eq!(obs_rc(&format!("{}returncode=1", "é".repeat(10))), None);
}

#[test]
fn chunk_new_derives_tokens_from_chars_with_floor_of_one() {
    let tok = |s: &str| Chunk::new(s, None, None, None, 0, "other").tokens;
    assert_eq!(tok(""), 1);
    assert_eq!(tok("abcdefg"), 1);
    assert_eq!(tok("abcdefgh"), 2);
    // 9 chars, 27 bytes: char count decides.
    assert_eq!(tok("日本語テキスト日本"), 2);
}

#[test]
fn chunk_with_tokens_ignores_non_positive_overrides() {
    let c = Chunk::new("abcdefgh", None, None, None, 0, "other");
    assert_eq!(c.clone().with_tokens(0).tokens, 2);
    assert_eq!(c.clone().with_tokens(-5).tokens, 2);
    assert_eq!(c.with_tokens(9).tokens, 9);
}

#[test]
fn observation_other_windows_by_line_count() {
    let obs = numbered(100);
    for win in [1, 7, 40, 99, 100, 101, 1000] {
        let chunks = chunk_observation("pytest -q", &obs, 3, win, None, ChunkMode::Fixed, None);
        assert_eq!(chunks.len(), 100_usize.div_ceil(win), "win={win}");
        assert!(chunks
            .iter()
            .all(|c| c.kind == "other" && c.file.is_none() && c.lo.is_none() && c.step == 3));
        assert_eq!(texts(&chunks).join("\n"), obs, "win={win}");
        assert_full_coverage(&obs, &chunks);
    }
}

#[test]
fn observation_empty_and_whitespace_only_fall_back_to_one_raw_chunk() {
    for obs in ["", "  \n\t\n", "\x1f", "\n\n\n"] {
        let chunks = chunk_observation("pytest", obs, 0, 2, None, ChunkMode::Fixed, None);
        assert_eq!(texts(&chunks), vec![obs], "{obs:?}");
        assert_eq!(chunks[0].kind, "other");
    }
}

#[test]
fn observation_drops_blank_windows_but_keeps_every_content_line() {
    let obs = format!("a{}b", "\n".repeat(41));
    let chunks = chunk_observation("ls", &obs, 0, 20, None, ChunkMode::Fixed, None);
    assert_eq!(
        texts(&chunks),
        vec![format!("a{}", "\n".repeat(19)), "\nb".into()]
    );
    assert_full_coverage(&obs, &chunks);
}

#[test]
fn observation_normalises_line_terminators_to_lf() {
    let obs = "a\r\nb\rc\u{2028}d\n";
    let chunks = chunk_observation("make", obs, 0, 40, None, ChunkMode::Fixed, None);
    assert_eq!(texts(&chunks), vec!["a\nb\nc\nd"]);
    assert_full_coverage(obs, &chunks);
}

#[test]
fn observation_very_long_single_line_is_one_chunk() {
    let obs = "x".repeat(100_000);
    let chunks = chunk_observation("python run.py", &obs, 0, 40, None, ChunkMode::Fixed, None);
    assert_eq!(chunks.len(), 1);
    assert_eq!(chunks[0].text, obs);
    assert_eq!(chunks[0].tokens, 25_000);
}

#[test]
fn observation_large_multibyte_multiline_keeps_coverage() {
    let obs: String = (0..5000)
        .map(|i| match i % 4 {
            0 => format!("日本語 {i}\r\n"),
            1 => "\n".to_string(),
            2 => format!("😀 {i}\u{85}"),
            _ => "   \n".to_string(),
        })
        .collect();
    let chunks = chunk_observation("cargo test", &obs, 0, 40, None, ChunkMode::Fixed, None);
    assert_full_coverage(&obs, &chunks);
}

#[test]
fn observation_metadata_rides_on_every_chunk() {
    let cmd = format!("pytest {}", "é".repeat(400));
    let obs = format!("<returncode>1</returncode>\n{}", numbered(90));
    let chunks = chunk_observation(&cmd, &obs, 0, 40, None, ChunkMode::Fixed, None);
    assert!(chunks.len() > 1);
    for c in &chunks {
        assert_eq!(c.rc, Some(1));
        assert_eq!(char_len(&c.cmd), 300);
        assert_eq!(c.head, char_prefix(&obs, 240));
    }
}

#[test]
fn observation_read_windows_carry_file_and_line_range() {
    let chunks = chunk_observation(
        "cat src/a.py",
        &numbered(100),
        0,
        40,
        None,
        ChunkMode::Fixed,
        None,
    );
    assert_eq!(
        ranges(&chunks),
        vec![
            (Some(1), Some(40)),
            (Some(41), Some(80)),
            (Some(81), Some(100))
        ]
    );
    assert!(chunks
        .iter()
        .all(|c| c.kind == "read" && c.file.as_deref() == Some("a.py")));
}

#[test]
fn observation_read_ranges_start_at_sed_base() {
    let chunks = chunk_observation(
        "sed -n '101,150p' a.py",
        &numbered(50),
        0,
        40,
        None,
        ChunkMode::Fixed,
        None,
    );
    assert_eq!(
        ranges(&chunks),
        vec![(Some(101), Some(140)), (Some(141), Some(150))]
    );
}

#[test]
fn observation_read_keeps_blank_windows_unlike_other_output() {
    // only the read path emits blank chunks.
    let obs = "a\n\n\n";
    let read = chunk_observation("cat a.py", obs, 0, 1, None, ChunkMode::Fixed, None);
    assert_eq!(texts(&read), vec!["a", "", ""]);
    let other = chunk_observation("ls", obs, 0, 1, None, ChunkMode::Fixed, None);
    assert_eq!(texts(&other), vec!["a"]);
}

#[test]
fn observation_read_of_empty_output_is_one_rangeless_chunk() {
    let chunks = chunk_observation("cat a.py", "", 0, 40, None, ChunkMode::Fixed, None);
    assert_eq!(chunks.len(), 1);
    assert_eq!(chunks[0].text, "");
    assert_eq!(chunks[0].file.as_deref(), Some("a.py"));
    assert_eq!(ranges(&chunks), vec![(None, None)]);
}

#[test]
fn observation_grep_splits_hits_from_other_output() {
    let obs = "src/a.rs:1:foo\nsrc/b.rs:22:  foo()\n--\nnoise line\n src/c.rs:3:foo";
    let chunks = chunk_observation("grep -rn foo src", obs, 2, 40, None, ChunkMode::Fixed, None);
    let got: Vec<_> = chunks
        .iter()
        .map(|c| {
            (
                c.kind.as_str(),
                c.file.as_deref(),
                c.lo,
                c.hi,
                c.text.as_str(),
            )
        })
        .collect();
    assert_eq!(
        got,
        vec![
            ("grep", Some("a.rs"), Some(1), Some(1), "src/a.rs:1:foo"),
            (
                "grep",
                Some("b.rs"),
                Some(22),
                Some(22),
                "src/b.rs:22:  foo()"
            ),
            ("other", None, None, None, "--\nnoise line"),
            // Hit text is the raw line, not the stripped one.
            ("grep", Some("c.rs"), Some(3), Some(3), " src/c.rs:3:foo"),
        ]
    );
    assert_full_coverage(obs, &chunks);
}

#[test]
fn observation_grep_windows_non_hit_runs_and_drops_blank_ones() {
    let obs = "one\ntwo\nthree\n\n\na.py:1:x";
    let chunks = chunk_observation("rg x", obs, 0, 2, None, ChunkMode::Fixed, None);
    assert_eq!(texts(&chunks), vec!["one\ntwo", "three\n", "a.py:1:x"]);
    assert_full_coverage(obs, &chunks);
}

#[test]
fn observation_grep_without_hits_or_output() {
    let chunks = chunk_observation("grep foo a.py", "", 0, 40, None, ChunkMode::Fixed, None);
    assert_eq!(texts(&chunks), vec![""]);
    assert_eq!(chunks[0].kind, "other");
    let chunks = chunk_observation("grep foo a.py", "\n \n", 0, 40, None, ChunkMode::Fixed, None);
    assert_eq!(texts(&chunks), vec!["\n \n"]);
}

#[test]
fn observation_search_command_takes_priority_over_read() {
    let chunks = chunk_observation(
        "cat a.py | grep x",
        "a.py:3:x",
        0,
        40,
        Some(10),
        ChunkMode::Fixed,
        None,
    );
    assert_eq!(chunks[0].kind, "grep");
}

#[test]
fn observation_command_classification_is_whole_word() {
    // "ag" is a search tool, so reading a file
    // named ag.py is chunked as search output; "tag.py" has no word
    // boundary before "ag".
    let obs = "print(1)";
    let kind = |cmd: &str| {
        chunk_observation(cmd, obs, 0, 40, None, ChunkMode::Fixed, None)[0]
            .kind
            .clone()
    };
    assert_eq!(kind("cat ag.py"), "other");
    assert_eq!(kind("cat tag.py"), "read");
    assert_eq!(kind("concat.py"), "other");
}

#[test]
fn observation_read_lines_drops_blank_lines_but_keeps_coordinates() {
    let obs = "x\n\ny\n   \nz\nw";
    let chunks = chunk_observation(
        "sed -n '10,15p' a.py",
        obs,
        0,
        40,
        Some(2),
        ChunkMode::Fixed,
        None,
    );
    assert_eq!(texts(&chunks), vec!["x\ny", "z\nw"]);
    assert_eq!(
        ranges(&chunks),
        vec![(Some(10), Some(12)), (Some(14), Some(15))]
    );
}

#[test]
fn observation_read_lines_of_blank_output_falls_back_to_raw() {
    let chunks = chunk_observation("cat a.py", "\n \n", 0, 40, Some(5), ChunkMode::Fixed, None);
    assert_eq!(texts(&chunks), vec!["\n \n"]);
    assert_eq!(ranges(&chunks), vec![(None, None)]);
    assert_eq!(chunks[0].kind, "read");
}

#[test]
fn observation_read_lines_is_ignored_for_non_read_commands() {
    let with = chunk_observation("pytest", &numbered(50), 0, 40, Some(5), ChunkMode::Fixed, None);
    let without = chunk_observation("pytest", &numbered(50), 0, 40, None, ChunkMode::Fixed, None);
    assert_eq!(with, without);
}

#[test]
fn observation_read_lines_zero_behaves_like_one() {
    let cmd = "sed -n '10,13p' a.py";
    for obs in ["x\n\ny\nz", "\n \n"] {
        assert_eq!(
            chunk_observation(cmd, obs, 0, 40, Some(0), ChunkMode::Fixed, None),
            chunk_observation(cmd, obs, 0, 40, Some(1), ChunkMode::Fixed, None),
            "obs: {obs:?}"
        );
    }
}

#[test]
fn observation_window_size_zero_behaves_like_one() {
    let obs = "a\nb\n\nsrc/f.rs:3:x\nc";
    for cmd in ["pytest", "grep -rn x ."] {
        let want = chunk_observation(cmd, obs, 0, 1, None, ChunkMode::Fixed, None);
        let got = chunk_observation(cmd, obs, 0, 0, None, ChunkMode::Fixed, None);
        assert_eq!(got, want, "cmd: {cmd:?}");
    }
}

#[test]
fn assistant_window_size_zero_behaves_like_one() {
    let txt = "a\n\nb\nc";
    let want = chunk_assistant(txt, 0, 1);
    let got = chunk_assistant(txt, 0, 0);
    assert_eq!(got, want);
}

#[test]
fn assistant_empty_or_whitespace_yields_no_chunks() {
    assert!(chunk_assistant("", 0, 40).is_empty());
    assert!(chunk_assistant(" \n\t\u{2028}\x1f", 0, 40).is_empty());
}

#[test]
fn assistant_windows_and_coverage() {
    let txt = format!("{}\n\n\n\n\nlast", numbered(45));
    let chunks = chunk_assistant(&txt, 7, 10);
    assert!(chunks
        .iter()
        .all(|c| c.kind == "asst" && c.step == 7 && c.file.is_none()));
    assert_eq!(chunks.len(), 5);
    assert_full_coverage(&txt, &chunks);
}

#[test]
fn assistant_drops_only_blank_windows() {
    let txt = format!("a{}b", "\n".repeat(5));
    assert_eq!(texts(&chunk_assistant(&txt, 0, 2)), vec!["a\n", "\nb"]);
}

#[test]
fn accumulated_chunks_respects_upto_and_step_indices() {
    let steps: Vec<(String, String)> = (0..3)
        .map(|i| ("pytest".to_string(), format!("run {i}")))
        .collect();
    let steps_of = |upto| {
        accumulated_chunks(&steps, upto, None, ChunkMode::Fixed, &[])
            .iter()
            .map(|c| c.step)
            .collect::<Vec<_>>()
    };
    assert_eq!(steps_of(0), vec![0]);
    assert_eq!(steps_of(1), vec![0, 1]);
    assert_eq!(steps_of(2), vec![0, 1, 2]);
    assert_eq!(steps_of(usize::MAX - 1), vec![0, 1, 2]);
    assert!(accumulated_chunks(&[], 5, None, ChunkMode::Fixed, &[]).is_empty());
}

#[test]
fn accumulated_chunks_upto_usize_max_returns_all_steps() {
    let steps = [("pytest".to_string(), "ok".to_string())];
    let got = accumulated_chunks(&steps, usize::MAX, None, ChunkMode::Fixed, &[]);
    assert_eq!(got.len(), 1);
}
