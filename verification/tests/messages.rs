use parsec_engine::float::{tie_precision, Float};
use parsec_engine::messages::{
    actions, assistant_chunks_of, blob_tokens, content_text, reasoning_chunk, reasoning_chunks_of,
    reasoning_text, steps_of, truthy, Json, Number,
};
use parsec_engine::pystr::char_len;
use serde_json::Value;

/// The number as the library holds it: shortest digits, with ties to the even digit.
fn float_of(f: f64) -> Float {
    let mut sci = format!("{:e}", f);
    if let Some(precision) = tie_precision(&sci) {
        let even = format!("{:.*e}", precision, f);
        if even.parse::<f64>().is_ok_and(|g| g.to_bits() == f.to_bits()) {
            sci = even;
        }
    }
    Float::from_scientific(&sci).expect("{:e} is scientific notation")
}

fn json_of(v: &Value) -> Json {
    match v {
        Value::Null => Json::Null,
        Value::Bool(b) => Json::Bool(*b),
        Value::Number(n) => Json::Number(match (n.as_u64(), n.as_i64()) {
            (Some(u), _) => Number::Unsigned(u),
            (None, Some(i)) => Number::Signed(i),
            (None, None) => Number::Float(float_of(n.as_f64().unwrap_or(0.0))),
        }),
        Value::String(s) => Json::Str(s.clone()),
        Value::Array(a) => Json::Array(a.iter().map(json_of).collect()),
        Value::Object(o) => Json::Object(o.iter().map(|(k, v)| (k.clone(), json_of(v))).collect()),
    }
}

/// The value of a JSON text.
fn j(text: &str) -> Json {
    json_of(&serde_json::from_str(text).expect("JSON text"))
}

fn st(s: &str) -> Json {
    Json::Str(s.to_string())
}

fn obj(entries: Vec<(&str, Json)>) -> Json {
    Json::Object(entries.into_iter().map(|(k, v)| (k.to_string(), v)).collect())
}

fn assistant(actions: &[&str]) -> Json {
    let acts: Vec<Json> = actions.iter().map(|c| obj(vec![("command", st(c))])).collect();
    obj(vec![
        ("role", st("assistant")),
        ("content", st("")),
        ("extra", obj(vec![("actions", Json::Array(acts))])),
    ])
}

fn step(cmd: &str, obs: &str) -> (String, String) {
    (cmd.to_string(), obs.to_string())
}

#[test]
fn content_text_of_plain_string() {
    assert_eq!(content_text(&st("hello\nworld")), "hello\nworld");
    assert_eq!(content_text(&st("")), "");
}

#[test]
fn content_text_joins_text_blocks_with_spaces() {
    let c = j(r#"[
        {"type": "text", "text": "first"},
        {"type": "text", "text": "second"}
    ]"#);
    assert_eq!(content_text(&c), "first second");
    assert_eq!(content_text(&j("[]")), "");
}

#[test]
fn content_text_blocks_without_text_still_add_a_separator() {
    // every object block joins, even empty ones.
    let c = j(r#"[{"type": "image", "source": {}}, {"text": "a"}, {"type": "text"}]"#);
    assert_eq!(content_text(&c), " a ");
}

#[test]
fn content_text_skips_non_object_parts_and_non_string_text() {
    let c = j(r#"["raw", 5, null, [{"text": "nested"}], {"text": 42}, {"text": "ok"}]"#);
    assert_eq!(content_text(&c), " ok");
}

#[test]
fn content_text_of_other_json_types_is_empty() {
    for c in [
        j("null"),
        j("true"),
        j("3.5"),
        j(r#"{"text": "not a list"}"#),
    ] {
        assert_eq!(content_text(&c), "", "{c:?}");
    }
}

#[test]
fn content_text_does_not_look_inside_tool_blocks() {
    // only top-level "text" fields are read, so
    // tool_use input and tool_result content add nothing but separators.
    let c = j(r#"[
        {"type": "tool_use", "id": "t1", "name": "bash", "input": {"command": "ls"}},
        {"type": "tool_result", "tool_use_id": "t1", "content": "file.txt"},
        {"type": "tool_result", "tool_use_id": "t1", "content": [{"type": "text", "text": "x"}]}
    ]"#);
    assert_eq!(content_text(&c), "  ");
}

#[test]
fn actions_prefers_command_then_query() {
    let m = j(r#"{"extra": {"actions": [
        {"command": "ls", "query": "ignored"},
        {"command": "", "query": "search terms"},
        {"query": "only query"},
        {"command": 7, "query": "non-string command"},
        {},
        "not an object",
        {"command": null}
    ]}}"#);
    assert_eq!(
        actions(&m),
        vec![
            "ls",
            "search terms",
            "only query",
            "non-string command",
            "",
            "",
            ""
        ]
    );
}

#[test]
fn actions_missing_or_malformed_containers_give_empty() {
    for m in [
        j("{}"),
        j(r#"{"extra": null}"#),
        j(r#"{"extra": {}}"#),
        j(r#"{"extra": {"actions": {"command": "ls"}}}"#),
        j(r#"{"extra": "actions"}"#),
        st("assistant"),
        j("null"),
    ] {
        assert!(actions(&m).is_empty(), "{m:?}");
    }
}

#[test]
fn steps_of_pairs_each_assistant_with_next_user_or_tool() {
    let msgs = [
        j(r#"{"role": "system", "content": "sys"}"#),
        j(r#"{"role": "user", "content": "task"}"#),
        assistant(&["ls", "pwd"]),
        j(r#"{"role": "tool", "content": "a.py"}"#),
        assistant(&["cat a.py"]),
        j(r#"{"role": "user", "content": [{"type": "text", "text": "print(1)"}]}"#),
    ];
    assert_eq!(
        steps_of(&msgs),
        vec![step("ls ; pwd", "a.py"), step("cat a.py", "print(1)")]
    );
}

#[test]
fn steps_of_consecutive_assistants_keep_only_the_latest() {
    let msgs = [
        assistant(&["first"]),
        j(r#"{"role": "system", "content": "between"}"#),
        assistant(&["second"]),
        j(r#"{"role": "user", "content": "out"}"#),
        j(r#"{"role": "user", "content": "no pending assistant"}"#),
    ];
    assert_eq!(steps_of(&msgs), vec![step("second", "out")]);
}

#[test]
fn steps_of_drops_trailing_assistant_without_observation() {
    assert!(steps_of(&[assistant(&["ls"])]).is_empty());
    assert!(steps_of(&[]).is_empty());
}

#[test]
fn steps_of_missing_or_null_content_is_empty_observation() {
    let msgs = [
        assistant(&[]),
        j(r#"{"role": "tool"}"#),
        assistant(&["x"]),
        j(r#"{"role": "user", "content": null}"#),
    ];
    assert_eq!(steps_of(&msgs), vec![step("", ""), step("x", "")]);
}

#[test]
fn steps_of_ignores_malformed_messages_without_panicking() {
    let msgs = [
        j("null"),
        st("assistant"),
        j("[1, 2]"),
        j(r#"{"role": 5}"#),
        j(r#"{"role": "ASSISTANT"}"#),
        j(r#"{"content": "no role"}"#),
        assistant(&["ok"]),
        j(r#"{"role": "tool", "content": {"unexpected": "object"}}"#),
    ];
    assert_eq!(steps_of(&msgs), vec![step("ok", "")]);
}

#[test]
fn anthropic_tool_use_and_tool_result_blocks_yield_empty_step() {
    // commands come from extra.actions, not
    // tool_use blocks, and a tool_result's payload sits under "content",
    // not "text", so Anthropic-format turns give an empty step.
    let msgs = [
        j(r#"{"role": "assistant", "content": [
            {"type": "text", "text": "Let me look."},
            {"type": "tool_use", "id": "t1", "name": "bash", "input": {"command": "ls"}}
        ]}"#),
        j(r#"{"role": "user", "content": [
            {"type": "tool_result", "tool_use_id": "t1", "content": "a.py\nb.py"}
        ]}"#),
    ];
    assert_eq!(steps_of(&msgs), vec![step("", "")]);
    assert!(assistant_chunks_of(&msgs).is_empty());
}

#[test]
fn truthy_follows_python_rules() {
    let falsy = [
        j("null"),
        j("false"),
        j("0"),
        j("0.0"),
        j("-0.0"),
        st(""),
        j("[]"),
        j("{}"),
    ];
    for v in falsy {
        assert!(!truthy(&v), "{v:?} should be falsy");
    }
    let truthy_values = [
        j("true"),
        j("1"),
        j("-1"),
        j("0.1"),
        st(" "),
        j("[null]"),
        j(r#"{"a": null}"#),
    ];
    for v in truthy_values {
        assert!(truthy(&v), "{v:?} should be truthy");
    }
}

#[test]
fn blob_tokens_sums_provider_fields_and_reasoning_fields() {
    let m = obj(vec![
        (
            "tool_calls",
            j(r#"[
                {"provider_specific_fields": {"sig": "abcd"}},
                {"provider_specific_fields": {}},
                {"provider_specific_fields": null},
                {"id": "no psf"}
            ]"#),
        ),
        ("reasoning_content", st(&"x".repeat(40))),
        ("thinking_blocks", j(r#"[{"t": "é"}]"#)),
        ("provider_specific_fields", st("abcdefgh")),
    ]);
    // Objects are measured as their Python json.dumps form (ASCII-escaped).
    let want = char_len(r#"{"sig": "abcd"}"#) as i64 / 4
        + 40 / 4
        + char_len(r#"[{"t": "\u00e9"}]"#) as i64 / 4
        + 8 / 4;
    assert_eq!(blob_tokens(&m), want);
}

#[test]
fn blob_tokens_counts_chars_not_bytes_and_floors() {
    assert_eq!(blob_tokens(&obj(vec![("reasoning_content", st(&"é".repeat(8)))])), 2);
    assert_eq!(blob_tokens(&j(r#"{"reasoning_content": "abc"}"#)), 0);
    assert_eq!(blob_tokens(&j(r#"{"reasoning_content": "abcdefg"}"#)), 1);
}

#[test]
fn blob_tokens_ignores_falsy_and_malformed_fields() {
    for m in [
        j("{}"),
        j(r#"{"reasoning_content": ""}"#),
        j(r#"{"thinking_blocks": []}"#),
        j(r#"{"provider_specific_fields": {}}"#),
        j(r#"{"reasoning_content": 0}"#),
        j(r#"{"tool_calls": {"provider_specific_fields": {"a": "bbbbbbbbbbbbbbbbbbbb"}}}"#),
        j(r#"{"tool_calls": ["not an object", 3]}"#),
        j("null"),
    ] {
        assert_eq!(blob_tokens(&m), 0, "{m:?}");
    }
}

#[test]
fn blob_tokens_serialises_non_string_reasoning_fields() {
    // true -> "true" (4 chars) -> 1 token.
    assert_eq!(blob_tokens(&j(r#"{"reasoning_content": true}"#)), 1);
}

#[test]
fn reasoning_text_prefers_reasoning_content_then_actions() {
    let m = j(r#"{"reasoning_content": "think", "extra": {"actions": [{"command": "ls"}]}}"#);
    assert_eq!(reasoning_text(&m), "think");
    let m = j(r#"{
        "reasoning_content": " \n\u001f",
        "extra": {"actions": [{"command": "ls"}, {"command": ""}, {"query": "q"}]}
    }"#);
    assert_eq!(reasoning_text(&m), "ls ; q");
    let m = j(r#"{"reasoning_content": ["not a string"], "extra": {"actions": [{"command": "pwd"}]}}"#);
    assert_eq!(reasoning_text(&m), "pwd");
}

#[test]
fn reasoning_text_defaults_to_placeholder() {
    assert_eq!(reasoning_text(&j("{}")), "reasoning");
    assert_eq!(
        reasoning_text(&j(r#"{"extra": {"actions": [{"command": ""}, {}]}}"#)),
        "reasoning"
    );
}

#[test]
fn reasoning_text_is_capped_at_2000_chars() {
    let m = obj(vec![("reasoning_content", st(&"日".repeat(2500)))]);
    assert_eq!(reasoning_text(&m), "日".repeat(2000));
    let long = "é".repeat(1500);
    let m = obj(vec![(
        "extra",
        obj(vec![(
            "actions",
            Json::Array(vec![obj(vec![("command", st(&long))]), obj(vec![("command", st(&long))])]),
        )]),
    )]);
    assert_eq!(char_len(&reasoning_text(&m)), 2000);
}

#[test]
fn reasoning_chunk_uses_blob_tokens_and_provider_eviction() {
    let m = obj(vec![("reasoning_content", st(&"x".repeat(400)))]);
    let c = reasoning_chunk(&m, 4).expect("has a reasoning blob");
    assert_eq!(c.kind, "reasoning");
    assert_eq!(c.evict, "provider");
    assert_eq!(c.step, 4);
    assert_eq!(c.tokens, 100);
    assert_eq!(c.text, "x".repeat(400));
}

#[test]
fn reasoning_chunk_is_none_when_blob_rounds_to_zero_tokens() {
    assert!(reasoning_chunk(&j(r#"{"reasoning_content": "abc"}"#), 0).is_none());
    assert!(reasoning_chunk(&j("{}"), 0).is_none());
}

#[test]
fn reasoning_chunks_of_step_index_matches_steps_of() {
    let with_blob = || {
        obj(vec![("role", st("assistant")), ("reasoning_content", st(&"y".repeat(80)))])
    };
    let msgs = [
        j(r#"{"role": "assistant", "content": "no blob"}"#),
        j(r#"{"role": "user", "content": "o0"}"#),
        j(r#"{"role": "user", "content": "unpaired"}"#),
        with_blob(),
        j(r#"{"role": "tool", "content": "o1"}"#),
        with_blob(),
    ];
    let chunks = reasoning_chunks_of(&msgs);
    assert_eq!(chunks.len(), 1);
    assert_eq!(chunks[0].step, 1);
    assert_eq!(steps_of(&msgs).len(), 2);
}

#[test]
fn assistant_chunks_of_accepts_strings_and_text_only_blocks() {
    let msgs = [
        j(r#"{"role": "assistant", "content": "plain"}"#),
        j(r#"{"role": "user", "content": "o"}"#),
        j(r#"{"role": "assistant", "content": [{"type": "text", "text": "a"}, {"text": "b"}]}"#),
        j(r#"{"role": "tool", "content": "o"}"#),
    ];
    let got: Vec<_> = assistant_chunks_of(&msgs)
        .into_iter()
        .map(|c| (c.step, c.text, c.kind))
        .collect();
    assert_eq!(
        got,
        vec![
            (0, "plain".to_string(), "asst".to_string()),
            (1, "a b".to_string(), "asst".to_string())
        ]
    );
}

#[test]
fn assistant_chunks_of_skips_non_text_content_but_still_advances_step() {
    let msgs = [
        j(r#"{"role": "assistant", "content": [{"type": "text", "text": "x"}, {"type": "tool_use"}]}"#),
        j(r#"{"role": "user", "content": "o"}"#),
        j(r#"{"role": "assistant", "content": [{"type": 1, "text": "x"}]}"#),
        j(r#"{"role": "user", "content": "o"}"#),
        j(r#"{"role": "assistant", "content": ["x"]}"#),
        j(r#"{"role": "user", "content": "o"}"#),
        j(r#"{"role": "assistant"}"#),
        j(r#"{"role": "user", "content": "o"}"#),
        j(r#"{"role": "assistant", "content": {"text": "x"}}"#),
        j(r#"{"role": "user", "content": "o"}"#),
        j(r#"{"role": "assistant", "content": "kept"}"#),
        j(r#"{"role": "user", "content": "o"}"#),
    ];
    let chunks = assistant_chunks_of(&msgs);
    assert_eq!(chunks.len(), 1);
    assert_eq!((chunks[0].step, chunks[0].text.as_str()), (5, "kept"));
}

#[test]
fn assistant_chunks_of_blank_text_and_empty_block_list_give_nothing() {
    let msgs = [
        j(r#"{"role": "assistant", "content": " \n\t"}"#),
        j(r#"{"role": "user", "content": "o"}"#),
        j(r#"{"role": "assistant", "content": []}"#),
        j(r#"{"role": "user", "content": "o"}"#),
    ];
    assert!(assistant_chunks_of(&msgs).is_empty());
}
