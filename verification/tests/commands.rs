use parsec_engine::chunking::{
    basename, chunk_classified, chunk_observation, chunk_observation_inner, classify, first_file,
    is_path, parse_line_no, read_atom_lines, ChunkMode, CommandKind,
};
use parsec_engine::command::{line_of_address, status_of_text};
use parsec_engine::json::{Json, Number};
use parsec_engine::messages::turn_indices;
use parsec_engine::number::parse_i64;
use parsec_engine::pystr::{is_line_break, py_json_quote_opts};

fn read(file: &str, base: i64) -> CommandKind {
    CommandKind::Read { file: Some(file.to_string()), base }
}

#[test]
fn commands_are_classified_with_searches_first() {
    assert_eq!(classify("grep -n x a.py"), CommandKind::Search);
    assert_eq!(classify("cat a.py | grep x"), CommandKind::Search);
    assert_eq!(classify("sed -n '7,9p' src/a.py"), read("a.py", 7));
    assert_eq!(classify("cat 'dir/b.rs'"), read("b.rs", 1));
    assert_eq!(classify("cat Makefile"), CommandKind::Read { file: None, base: 1 });
    assert_eq!(classify("pytest -q"), CommandKind::Other);
    assert_eq!(classify(""), CommandKind::Other);
}

#[test]
fn first_file_is_the_first_word_with_a_suffix() {
    assert_eq!(first_file("cat \"x/y.py\" z.rs"), Some("y.py".to_string()));
    assert_eq!(first_file("head -n 3 v1.2 a.c"), Some("a.c".to_string()));
    assert_eq!(first_file("ls dir/"), None);
}

#[test]
fn paths_hold_a_slash_or_end_in_an_extension() {
    for (tok, want) in [("a/b", true), ("/", true), ("a.py", true), ("a.", false), ("", false), ("a.b c", false)] {
        assert_eq!(is_path(tok), want, "{tok:?}");
    }
    for (tok, want) in [("a/b/c.py", "c.py"), ("c.py", "c.py"), ("a/", ""), ("", "")] {
        assert_eq!(basename(tok), want, "{tok:?}");
    }
}

#[test]
fn numbers_are_read_within_i64() {
    for (s, want) in [
        ("12", Some(12)),
        ("-12", Some(-12)),
        ("+7", Some(7)),
        ("007", Some(7)),
        ("9223372036854775807", Some(i64::MAX)),
        ("-9223372036854775808", Some(i64::MIN)),
        ("9223372036854775808", None),
        ("", None),
        ("-", None),
        ("1x", None),
        ("٣", None),
    ] {
        assert_eq!(parse_i64(s), want, "{s:?}");
        assert_eq!(parse_line_no(s), want.unwrap_or(i64::MAX), "{s:?}");
    }
    assert_eq!(line_of_address(Some("42")), 42);
    assert_eq!(line_of_address(Some("99999999999999999999")), i64::MAX);
    assert_eq!(line_of_address(None), 1);
    assert_eq!(status_of_text(Some("-1")), Some(-1));
    assert_eq!(status_of_text(Some("99999999999999999999")), None);
    assert_eq!(status_of_text(None), None);
}

#[test]
fn read_lines_keep_their_numbers() {
    let (file, lines) = read_atom_lines("sed -n '5,9p' a.py", "x\n\n  # c\n \ny");
    assert_eq!(file.as_deref(), Some("a.py"));
    assert_eq!(lines, vec![(5, "x"), (7, "  # c"), (9, "y")]);
}

#[test]
fn blank_output_is_one_raw_chunk() {
    for cmd in ["pytest", "grep -n x a.py"] {
        for obs in ["", "\n", " \n\t\n\n"] {
            let chunks = chunk_observation(cmd, obs, 0, 1, Some(2), ChunkMode::Cst, None);
            assert_eq!(chunks.len(), 1);
            assert_eq!((chunks[0].text.as_str(), chunks[0].kind.as_str()), (obs, "other"));
        }
    }
}

#[test]
fn chunks_follow_from_kind_and_status() {
    let kind = read("a.py", 10);
    let windows = chunk_observation_inner(&kind, "a\nb\nc", 1, 2);
    let got: Vec<_> = windows.iter().map(|c| (c.text.as_str(), c.lo, c.hi)).collect();
    assert_eq!(got, vec![("a\nb", Some(10), Some(11)), ("c", Some(12), Some(12))]);
    let stamped = chunk_classified(&kind, Some(3), "cmd", "a\nb\nc", 1, 2, None, None);
    assert!(stamped.iter().all(|c| c.rc == Some(3) && c.cmd == "cmd" && c.head == "a\nb\nc"));
    let found = chunk_observation_inner(&CommandKind::Search, "x\nsrc/f.rs:3:y\nz", 0, 40);
    let got: Vec<_> = found.iter().map(|c| (c.text.as_str(), c.kind.as_str(), c.lo)).collect();
    assert_eq!(
        got,
        vec![("x", "other", None), ("src/f.rs:3:y", "grep", Some(3)), ("z", "other", None)]
    );
}

#[test]
fn turns_pair_messages_by_index() {
    let role = |r: &str| Json::Object(vec![("role".to_string(), Json::Str(r.to_string()))]);
    let msgs = [
        role("user"),
        role("assistant"),
        role("assistant"),
        role("system"),
        role("tool"),
        role("user"),
        role("assistant"),
    ];
    assert_eq!(turn_indices(&msgs), vec![(2, 4)]);
}

#[test]
fn objects_are_read_by_key() {
    let one = Json::Number(Number::Signed(-1));
    let v = Json::Object(vec![("a".to_string(), Json::Null), ("b".to_string(), one)]);
    assert_eq!(v.get("b"), Some(&Json::Number(Number::Signed(-1))));
    assert_eq!(v.get("c"), None);
    assert_eq!(Json::Null.get("a"), None);
}

#[test]
fn strings_are_quoted_for_json() {
    assert_eq!(py_json_quote_opts("a\"\\\n\x01é😀", true), "\"a\\\"\\\\\\n\\u0001\\u00e9\\ud83d\\ude00\"");
    assert_eq!(py_json_quote_opts("é\x7f", false), "\"é\x7f\"");
    assert!(is_line_break('\u{2028}') && !is_line_break('\x1f'));
}
