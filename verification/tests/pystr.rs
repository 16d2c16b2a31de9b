use parsec_engine::float::{py_float_repr, tie_precision, Float};
use parsec_engine::json::{Json, Number};
use parsec_engine::pystr::{
    char_len, char_prefix, py_has_content, py_is_space, py_json_dumps, py_json_dumps_opts,
    py_split_ws, py_splitlines, py_strip,
};
use serde_json::Value;

/// The number as the library holds it: shortest digits, with ties to the even digit.
fn float_of(f: f64) -> Float {
    let mut sci = format!("{:e}", f);
    if let Some(precision) = tie_precision(&sci) {
        let even = format!("{:.*e}", precision, f);
        if even.parse::<f64>().is_ok_and(|g| g.to_bits() == f.to_bits()) {
            sci = even;
        }
    }
    Float::from_scientific(&sci).expect("{:e} is scientific notation")
}

fn json_of(v: &Value) -> Json {
    match v {
        Value::Null => Json::Null,
        Value::Bool(b) => Json::Bool(*b),
        Value::Number(n) => Json::Number(match (n.as_u64(), n.as_i64()) {
            (Some(u), _) => Number::Unsigned(u),
            (None, Some(i)) => Number::Signed(i),
            (None, None) => Number::Float(float_of(n.as_f64().unwrap_or(0.0))),
        }),
        Value::String(s) => Json::Str(s.clone()),
        Value::Array(a) => Json::Array(a.iter().map(json_of).collect()),
        Value::Object(o) => Json::Object(o.iter().map(|(k, v)| (k.clone(), json_of(v))).collect()),
    }
}

/// The value of a JSON text.
fn j(text: &str) -> Json {
    json_of(&serde_json::from_str(text).expect("JSON text"))
}

fn st(s: &str) -> Json {
    Json::Str(s.to_string())
}

#[test]
fn splitlines_matches_python() {
    assert_eq!(py_splitlines("a\nb"), vec!["a", "b"]);
    assert_eq!(py_splitlines("a\r\nb\rc"), vec!["a", "b", "c"]);
    assert_eq!(py_splitlines("a\n"), vec!["a"]);
    assert_eq!(py_splitlines(""), Vec::<&str>::new());
    assert_eq!(
        py_splitlines("a\x0bb\x1cc\u{2028}d"),
        vec!["a", "b", "c", "d"]
    );
}

#[test]
fn char_prefix_is_chars_not_bytes() {
    assert_eq!(char_prefix("héllo", 2), "hé");
    assert_eq!(char_prefix("ab", 10), "ab");
}

#[test]
fn float_repr_matches_cpython() {
    for (f, want) in [
        (1e-7, "1e-07"),
        (0.00001, "1e-05"),
        (0.0001, "0.0001"),
        (1e16, "1e+16"),
        (1e15, "1000000000000000.0"),
        (123.456, "123.456"),
        (1.0, "1.0"),
        (-0.0, "-0.0"),
        (0.5, "0.5"),
        (3.14e100, "3.14e+100"),
        (-2.5e-7, "-2.5e-07"),
        (1.1534175185142759, "1.1534175185142759"),
        (9999999999999998.0, "9999999999999998.0"),
        // Exact values halfway between two shortest candidates: CPython
        // picks the even last digit.
        (-(779235279045435.0 + 0.25), "-779235279045435.2"),
        (779235279045435.0 + 0.75, "779235279045435.8"),
        (752425007713457.0 + 0.25, "752425007713457.2"),
        (-(94509237745610.0 + 0.125), "-94509237745610.12"),
        (78234646435938.0 + 0.625, "78234646435938.62"),
    ] {
        assert_eq!(py_float_repr(&float_of(f)), want, "repr({f})");
    }
}

#[test]
fn json_dumps_default_formatting() {
    let v = j(r#"{"a": [1, "é"], "b": null}"#);
    assert_eq!(py_json_dumps(&v), "{\"a\": [1, \"\\u00e9\"], \"b\": null}");
}

// Expected values below were checked against CPython 3.12.

/// Every char CPython 3.12 reports as `str.isspace()`.
const PY_WHITESPACE: [u32; 29] = [
    0x09, 0x0a, 0x0b, 0x0c, 0x0d, 0x1c, 0x1d, 0x1e, 0x1f, 0x20, 0x85, 0xa0, 0x1680, 0x2000,
    0x2001, 0x2002, 0x2003, 0x2004, 0x2005, 0x2006, 0x2007, 0x2008, 0x2009, 0x200a, 0x2028,
    0x2029, 0x202f, 0x205f, 0x3000,
];

/// The chars `str.splitlines()` breaks on (\r\n is the eleventh boundary).
const PY_LINE_BREAKS: [char; 10] = [
    '\n', '\r', '\x0b', '\x0c', '\x1c', '\x1d', '\x1e', '\u{85}', '\u{2028}', '\u{2029}',
];

fn all_chars() -> impl Iterator<Item = char> {
    (0..=0x10FFFF).filter_map(char::from_u32)
}

#[test]
fn splitlines_breaks_on_exactly_the_python_boundary_set() {
    for c in all_chars() {
        let s = format!("a{c}b");
        let got = py_splitlines(&s);
        if PY_LINE_BREAKS.contains(&c) {
            assert_eq!(got, vec!["a", "b"], "U+{:04X} should split", c as u32);
        } else {
            assert_eq!(got, vec![s.as_str()], "U+{:04X} should not split", c as u32);
        }
    }
}

#[test]
fn splitlines_does_not_break_on_unit_separator() {
    // \x1c..\x1e are line boundaries but \x1f is not, even though all
    // four count as whitespace for strip().
    assert_eq!(py_splitlines("a\x1fb\x1cc"), vec!["a\x1fb", "c"]);
}

#[test]
fn splitlines_crlf_is_one_break_but_lf_cr_is_two() {
    assert_eq!(py_splitlines("a\r\nb"), vec!["a", "b"]);
    assert_eq!(py_splitlines("a\n\rb"), vec!["a", "", "b"]);
    assert_eq!(py_splitlines("\r\r\n"), vec!["", ""]);
    assert_eq!(py_splitlines("a\r\n"), vec!["a"]);
}

#[test]
fn splitlines_keeps_leading_and_inner_empty_lines_but_no_trailing_one() {
    assert_eq!(
        py_splitlines("\n\na\r\n\r\nb\r\r\n\n"),
        vec!["", "", "a", "", "b", "", ""]
    );
    assert_eq!(py_splitlines("\n"), vec![""]);
    assert_eq!(py_splitlines("\u{2029}\u{2029}"), vec!["", ""]);
}

#[test]
fn splitlines_handles_multibyte_breaks_between_multibyte_text() {
    assert_eq!(
        py_splitlines("é\u{85}日本\u{2028}😀\u{2029}x\x0cy"),
        vec!["é", "日本", "😀", "x", "y"]
    );
}

#[test]
fn splitlines_lines_are_in_order_and_only_separators_are_dropped() {
    let s = "\u{2028}ab\r\n\rc\x0b\x0bdé\u{85}";
    let mut rebuilt = String::new();
    let mut rest = s;
    for line in py_splitlines(s) {
        let at = rest
            .find(line)
            .expect("line appears in the remaining input");
        assert!(
            rest[..at].chars().all(|c| PY_LINE_BREAKS.contains(&c)),
            "only line breaks may be skipped before {line:?}"
        );
        rebuilt.push_str(line);
        rest = &rest[at + line.len()..];
        let sep_len = if rest.starts_with("\r\n") {
            2
        } else {
            rest.chars().next().map_or(0, char::len_utf8)
        };
        rest = &rest[sep_len..];
    }
    assert_eq!(rest, "", "input fully consumed");
    assert_eq!(rebuilt, "abcdé");
}

#[test]
fn is_space_matches_python_isspace_for_every_char() {
    for c in all_chars() {
        assert_eq!(
            py_is_space(c),
            PY_WHITESPACE.contains(&(c as u32)),
            "U+{:04X}",
            c as u32
        );
    }
}

#[test]
fn strip_removes_python_whitespace_from_both_ends_only() {
    assert_eq!(
        py_strip("\x1c\x1d\x1e\x1f \t\u{a0}\u{3000}x\u{200b}\u{feff}"),
        "x\u{200b}\u{feff}"
    );
    assert_eq!(py_strip("\u{2028} a \x1f b \u{85}"), "a \x1f b");
    assert_eq!(py_strip("no-whitespace"), "no-whitespace");
}

#[test]
fn strip_of_empty_or_all_whitespace_is_empty() {
    assert_eq!(py_strip(""), "");
    assert_eq!(
        py_strip(" \t\r\n\x0b\x0c\x1c\x1d\x1e\x1f\u{85}\u{3000}"),
        ""
    );
    assert!(!py_has_content(""));
    assert!(!py_has_content("\x1f\u{2029}"));
    assert!(py_has_content("\x1f.\u{2029}"));
    // Zero-width space and BOM are not whitespace in Python.
    assert!(py_has_content("\u{200b}"));
    assert!(py_has_content("\u{feff}"));
}

#[test]
fn split_ws_drops_empty_parts_and_splits_on_c0_separators() {
    assert_eq!(py_split_ws("\x1fa\u{3000}\u{3000}b\x1c"), vec!["a", "b"]);
    assert_eq!(py_split_ws(" \t "), Vec::<&str>::new());
    assert_eq!(py_split_ws(""), Vec::<&str>::new());
    assert_eq!(py_split_ws("a\u{200b}b"), vec!["a\u{200b}b"]);
}

#[test]
fn char_len_counts_code_points_not_bytes_or_graphemes() {
    assert_eq!(char_len(""), 0);
    assert_eq!(char_len("héllo"), 5);
    assert_eq!(char_len("日本語"), 3);
    // Python 3 str has no surrogate pairs: an astral emoji is one char.
    assert_eq!(char_len("😀"), 1);
    // Combining accent and ZWJ sequences count every code point.
    assert_eq!(char_len("e\u{301}"), 2);
    assert_eq!(char_len("👨\u{200d}👩\u{200d}👧"), 5);
}

#[test]
fn char_len_never_exceeds_byte_len() {
    for s in ["", "a", "é", "日本語", "😀x", "e\u{301}\u{85}"] {
        assert!(char_len(s) <= s.len(), "{s:?}");
    }
}

#[test]
fn char_prefix_slices_on_char_boundaries() {
    assert_eq!(char_prefix("日本語テキスト", 3), "日本語");
    assert_eq!(char_prefix("😀😃😄", 2), "😀😃");
    assert_eq!(char_prefix("e\u{301}x", 1), "e");
    assert_eq!(char_prefix("👨\u{200d}👩", 2), "👨\u{200d}");
}

#[test]
fn char_prefix_zero_exact_and_oversized_lengths() {
    assert_eq!(char_prefix("héllo", 0), "");
    assert_eq!(char_prefix("héllo", 5), "héllo");
    assert_eq!(char_prefix("héllo", 6), "héllo");
    assert_eq!(char_prefix("héllo", usize::MAX), "héllo");
    assert_eq!(char_prefix("", 0), "");
    assert_eq!(char_prefix("", 3), "");
}

#[test]
fn json_dumps_sort_keys_orders_by_code_point() {
    let v = j("{\"b\": 1, \"a\": 2, \"é\": 3, \"Z\": 4, \"😀\": 5, \"\u{ffff}\": 6}");
    assert_eq!(
        py_json_dumps_opts(&v, true, false),
        "{\"Z\": 4, \"a\": 2, \"b\": 1, \"é\": 3, \"\u{ffff}\": 6, \"😀\": 5}"
    );
}

#[test]
fn json_dumps_without_sort_keys_keeps_insertion_order() {
    let v = j(r#"{"b": 1, "a": 2}"#);
    assert_eq!(py_json_dumps_opts(&v, false, true), "{\"b\": 1, \"a\": 2}");
    assert_eq!(py_json_dumps_opts(&v, false, false), "{\"b\": 1, \"a\": 2}");
}

#[test]
fn json_dumps_sort_keys_applies_to_nested_objects() {
    let v = j(r#"{"x": {"b": 1, "a": [{"d": 1, "c": 2}]}}"#);
    assert_eq!(
        py_json_dumps_opts(&v, true, true),
        "{\"x\": {\"a\": [{\"c\": 2, \"d\": 1}], \"b\": 1}}"
    );
}

#[test]
fn json_dumps_ensure_ascii_escapes_non_ascii_and_surrogate_pairs() {
    let v = st("😀é\u{2028}\u{0}\u{1f}\u{8}\u{c}/");
    assert_eq!(
        py_json_dumps_opts(&v, false, true),
        r#""\ud83d\ude00\u00e9\u2028\u0000\u001f\b\f/""#
    );
}

#[test]
fn json_dumps_ensure_ascii_surrogate_pairs_start_above_the_bmp() {
    // U+FFFF is the last single escape; U+10000 is the first pair.
    let v = st("\u{ffff}\u{10000}\u{10ffff}");
    assert_eq!(
        py_json_dumps_opts(&v, false, true),
        r#""\uffff\ud800\udc00\udbff\udfff""#
    );
}

#[test]
fn json_dumps_without_ensure_ascii_emits_raw_utf8_but_still_escapes_controls() {
    let v = st("😀é\u{2028}\u{0}\"\\\n\r\t");
    assert_eq!(
        py_json_dumps_opts(&v, false, false),
        "\"😀é\u{2028}\\u0000\\\"\\\\\\n\\r\\t\""
    );
}

#[test]
fn json_dumps_ensure_ascii_applies_to_keys_too() {
    let v = j(r#"{"ключ": "é"}"#);
    assert_eq!(
        py_json_dumps_opts(&v, false, true),
        r#"{"\u043a\u043b\u044e\u0447": "\u00e9"}"#
    );
    assert_eq!(py_json_dumps_opts(&v, false, false), "{\"ключ\": \"é\"}");
}

#[test]
fn json_dumps_empty_containers_and_scalars() {
    let v = j(r#"[{}, [], null, true, false, ""]"#);
    assert_eq!(py_json_dumps(&v), r#"[{}, [], null, true, false, ""]"#);
}

#[test]
fn json_dumps_numbers_match_python_after_parsing() {
    let v = j("[1e2, -0.0, 18446744073709551615, -9223372036854775808, 1.5e300]");
    assert_eq!(
        py_json_dumps(&v),
        "[100.0, -0.0, 18446744073709551615, -9223372036854775808, 1.5e+300]"
    );
}

#[test]
fn json_dumps_ensure_ascii_escapes_del() {
    let v = st("\u{7f}");
    assert_eq!(py_json_dumps_opts(&v, false, true), r#""\u007f""#);
    assert_eq!(py_json_dumps_opts(&v, false, false), "\"\u{7f}\"");
}
