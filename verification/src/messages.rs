//! Messages of an agent's conversation: its steps, and the chunks of what it said and thought.
use vstd::prelude::*;

pub use crate::json::{Json, Number};
use crate::chunk::{chunks, new_chunk, Chunk, ChunkModel, DEFAULT_WIN};
use crate::chunking::{chunk_assistant, text_chunks};
use crate::dumps::{dumps, py_json_dumps};
use crate::json::{field, JsonModel, NumberModel};
use crate::laws::conversations::{law_observation_is_the_whole_reply, whole_content};
use crate::laws::turns::{law_reasoning_of_a_conversation, law_said_chunks_of_a_conversation, thoughts_of_steps, words_of_steps};
use crate::pystr::{char_len, char_prefix, has_content, prefix, py_has_content, splitlines};
use crate::text::{find_char, join, join_range, str_eq, strings, strs};

verus! {

/// What the values of a list hold.
pub open spec fn models(list: Seq<Json>) -> Seq<JsonModel> {
    Seq::new(list.len(), |i: int| list[i]@)
}

/// The text that a value has under a key.
pub open spec fn str_field(v: JsonModel, key: Seq<char>) -> Option<Seq<char>> {
    match field(v, key) {
        Some(JsonModel::Str(s)) => Some(s),
        _ => None,
    }
}

/// The list that a value has under a key.
pub open spec fn array_field(v: JsonModel, key: Seq<char>) -> Option<Seq<JsonModel>> {
    match field(v, key) {
        Some(JsonModel::Array(a)) => Some(a),
        _ => None,
    }
}

/// What an action does: its command, or its query where the command is missing or empty.
pub open spec fn action_text(a: JsonModel) -> Seq<char> {
    match str_field(a, "command"@) {
        Some(s) if s.len() > 0 => s,
        _ => match str_field(a, "query"@) {
            Some(s) => s,
            None => seq![],
        },
    }
}

/// The actions of a message.
pub open spec fn action_list(m: JsonModel) -> Seq<JsonModel> {
    match field(m, "extra"@) {
        Some(extra) => match array_field(extra, "actions"@) {
            Some(a) => a,
            None => seq![],
        },
        None => seq![],
    }
}

/// What the actions of a message do.
pub open spec fn action_texts(m: JsonModel) -> Seq<Seq<char>> {
    let list = action_list(m);
    Seq::new(list.len(), |i: int| action_text(list[i]))
}

/// The texts of those parts that are objects; an object without a text counts with an empty one.
pub open spec fn part_texts(parts: Seq<JsonModel>) -> Seq<Seq<char>>
    decreases parts.len(),
{
    if parts.len() == 0 {
        seq![]
    } else {
        let before = part_texts(parts.drop_last());
        let last = parts.last();
        if last is Object {
            before.push(
                match str_field(last, "text"@) {
                    Some(s) => s,
                    None => seq![],
                },
            )
        } else {
            before
        }
    }
}

/// The text of a content: a plain text, or the parts of a list with spaces between them.
pub open spec fn text_of(content: JsonModel) -> Seq<char> {
    match content {
        JsonModel::Str(s) => s,
        JsonModel::Array(parts) => join(part_texts(parts), seq![' ']),
        _ => seq![],
    }
}

/// The text that stands between actions.
pub open spec fn action_sep() -> Seq<char> {
    seq![' ', ';', ' ']
}

/// What a message is in the alternation of an agent and its surroundings.
pub enum Role {
    /// The agent speaks.
    Assistant,
    /// The user or a tool replies.
    Reply,
    /// Anything else.
    Neither,
}

/// The role of a message.
pub open spec fn role_of(m: JsonModel) -> Role {
    match str_field(m, "role"@) {
        Some(r) => if r == "assistant"@ {
            Role::Assistant
        } else if r == "user"@ || r == "tool"@ {
            Role::Reply
        } else {
            Role::Neither
        },
        None => Role::Neither,
    }
}

/// The messages of the agent that got a reply, each with that reply, and the message that still
/// waits for one.
pub struct Turns {
    pub pairs: Seq<(int, int)>,
    pub pending: Option<int>,
}

/// The turns among the first `n` messages. A reply answers the agent's last message before it,
/// and every message is answered once.
pub open spec fn turns(ms: Seq<JsonModel>, n: nat) -> Turns
    decreases n,
{
    if n == 0 {
        Turns { pairs: seq![], pending: None }
    } else {
        let t = turns(ms, (n - 1) as nat);
        match role_of(ms[n - 1]) {
            Role::Assistant => Turns { pairs: t.pairs, pending: Some(n - 1) },
            Role::Reply => match t.pending {
                Some(a) => Turns { pairs: t.pairs.push((a, n - 1)), pending: None },
                None => t,
            },
            Role::Neither => t,
        }
    }
}

/// The steps of a conversation: each message of the agent that got a reply, with that reply.
pub open spec fn step_pairs(ms: Seq<JsonModel>) -> Seq<(int, int)> {
    turns(ms, ms.len()).pairs
}

/// The observation that a reply carries.
pub open spec fn observation(m: JsonModel) -> Seq<char> {
    match field(m, "content"@) {
        Some(c) => text_of(c),
        None => seq![],
    }
}

/// The command and the observation of every step.
pub open spec fn steps(ms: Seq<JsonModel>) -> Seq<(Seq<char>, Seq<char>)> {
    let pairs = step_pairs(ms);
    Seq::new(
        pairs.len(),
        |k: int| (join(action_texts(ms[pairs[k].0]), action_sep()), observation(ms[pairs[k].1])),
    )
}

/// The number is zero.
pub open spec fn zero(n: NumberModel) -> bool {
    match n {
        NumberModel::Int(i) => i == 0,
        NumberModel::Float(f) => forall|i: int| 0 <= i < f.digits.len() ==> #[trigger] f.digits[i] == '0',
    }
}

/// `bool(v)`.
pub open spec fn truth(v: JsonModel) -> bool {
    match v {
        JsonModel::Null => false,
        JsonModel::Bool(b) => b,
        JsonModel::Number(n) => !zero(n),
        JsonModel::Str(s) => s.len() > 0,
        JsonModel::Array(a) => a.len() > 0,
        JsonModel::Object(o) => o.len() > 0,
    }
}

/// The weight of a value in its JSON text.
pub open spec fn dumped_tokens(v: JsonModel) -> int {
    if truth(v) {
        dumps(v, false, true).len() as int / 4
    } else {
        0
    }
}

/// The weight of what a message has under a key; a text weighs as it is.
pub open spec fn field_tokens(m: JsonModel, key: Seq<char>) -> int {
    match field(m, key) {
        Some(JsonModel::Str(s)) => s.len() as int / 4,
        Some(v) => dumped_tokens(v),
        None => 0,
    }
}

/// The weight of what the provider added to the given tool calls.
pub open spec fn call_tokens(calls: Seq<JsonModel>) -> int
    decreases calls.len(),
{
    if calls.len() == 0 {
        0
    } else {
        call_tokens(calls.drop_last()) + match field(calls.last(), "provider_specific_fields"@) {
            Some(v) => dumped_tokens(v),
            None => 0,
        }
    }
}

/// The weight of the reasoning that a message carries.
pub open spec fn reasoning_tokens(m: JsonModel) -> int {
    let calls = match array_field(m, "tool_calls"@) {
        Some(a) => call_tokens(a),
        None => 0,
    };
    calls + field_tokens(m, "provider_specific_fields"@) + field_tokens(m, "thinking_blocks"@) + field_tokens(
        m,
        "reasoning_content"@,
    )
}

/// `n`, or the largest `i64` where that is smaller.
pub open spec fn capped(n: int) -> i64 {
    if n > i64::MAX {
        i64::MAX
    } else {
        n as i64
    }
}

/// How much of a text stands for the reasoning of a step.
pub const REASON_TEXT: usize = 2000;

/// The texts that are not empty.
pub open spec fn nonempty(list: Seq<Seq<char>>) -> Seq<Seq<char>> {
    list.filter(|s: Seq<char>| s.len() > 0)
}

/// The text that stands for the reasoning of a message.
pub open spec fn reason_text(m: JsonModel) -> Seq<char> {
    let acts = prefix(join(nonempty(action_texts(m)), action_sep()), REASON_TEXT as int);
    match str_field(m, "reasoning_content"@) {
        Some(rc) if has_content(rc) => prefix(rc, REASON_TEXT as int),
        _ => if acts.len() == 0 {
            "reasoning"@
        } else {
            acts
        },
    }
}

/// The chunk of the reasoning that a message carries, if it weighs anything.
pub open spec fn reason_chunk(m: JsonModel, step: i64) -> Option<ChunkModel> {
    if reasoning_tokens(m) > 0 {
        Some(
            ChunkModel {
                tokens: capped(reasoning_tokens(m)),
                evict: "provider"@,
                ..new_chunk(reason_text(m), None, None, None, step, "reasoning"@)
            },
        )
    } else {
        None
    }
}

/// The reasoning chunks of the first `n` steps.
pub open spec fn reasoning_through(ms: Seq<JsonModel>, n: nat) -> Seq<ChunkModel>
    decreases n,
{
    if n == 0 {
        seq![]
    } else {
        let before = reasoning_through(ms, (n - 1) as nat);
        match reason_chunk(ms[step_pairs(ms)[n - 1].0], (n - 1) as i64) {
            Some(c) => before.push(c),
            None => before,
        }
    }
}

/// A part that is plain text: an object whose type is `text` or not given.
pub open spec fn text_part(part: JsonModel) -> bool {
    part is Object && match field(part, "type"@) {
        None => true,
        Some(JsonModel::Str(s)) => s == "text"@,
        Some(_) => false,
    }
}

/// Every part is plain text.
pub open spec fn all_text_parts(parts: Seq<JsonModel>) -> bool {
    forall|i: int| 0 <= i < parts.len() ==> text_part(#[trigger] parts[i])
}

/// A content that is plain text.
pub open spec fn text_only(content: JsonModel) -> bool {
    match content {
        JsonModel::Str(s) => true,
        JsonModel::Array(parts) => all_text_parts(parts),
        _ => false,
    }
}

/// What the agent says in a message: its text, where its content is plain text.
pub open spec fn said(m: JsonModel) -> Seq<char> {
    match field(m, "content"@) {
        Some(c) if text_only(c) => text_of(c),
        _ => seq![],
    }
}

/// The chunks of what the agent says in a message.
pub open spec fn said_chunks(m: JsonModel, step: i64) -> Seq<ChunkModel> {
    text_chunks(splitlines(said(m)), DEFAULT_WIN as nat, step, "asst"@)
}

/// The chunks of what the agent says in the first `n` steps.
pub open spec fn said_through(ms: Seq<JsonModel>, n: nat) -> Seq<ChunkModel>
    decreases n,
{
    if n == 0 {
        seq![]
    } else {
        said_through(ms, (n - 1) as nat) + said_chunks(ms[step_pairs(ms)[n - 1].0], (n - 1) as i64)
    }
}

/// The text that a value has under a key.
fn get_str<'a>(v: &'a Json, key: &str) -> (r: Option<&'a str>)
    ensures
        (match r {
            Some(s) => Some(s@),
            None => None,
        }) == str_field(v@, key@),
{
    match v.get(key) {
        Some(Json::Str(s)) => Some(s.as_str()),
        _ => None,
    }
}

/// The list that a value has under a key.
fn get_array<'a>(v: &'a Json, key: &str) -> (r: Option<&'a Vec<Json>>)
    ensures
        (match r {
            Some(a) => Some(models(a@)),
            None => None,
        }) == array_field(v@, key@),
{
    match v.get(key) {
        Some(Json::Array(a)) => {
            assert(models(a@) =~= Json::Array(*a)@->Array_0);
            Some(a)
        },
        _ => None,
    }
}

/// What an action does.
fn action_of(a: &Json) -> (r: String)
    ensures
        r@ == action_text(a@),
{
    if let Some(s) = get_str(a, "command") {
        if !s.is_empty() {
            return s.to_string();
        }
    }
    match get_str(a, "query") {
        Some(s) => s.to_string(),
        None => String::new(),
    }
}

/// What the actions of a message do: the command or the query of each.
pub fn actions(m: &Json) -> (r: Vec<String>)
    ensures
        strings(r@) == action_texts(m@),
{
    let mut out: Vec<String> = Vec::new();
    if let Some(extra) = m.get("extra") {
        if let Some(list) = get_array(extra, "actions") {
            let mut i: usize = 0;
            let ghost want = action_texts(m@);
            while i < list.len()
                invariant
                    i <= list@.len(),
                    want.len() == list@.len(),
                    forall|j: int| 0 <= j < want.len() ==> #[trigger] want[j] == action_text(list@[j]@),
                    strings(out@) == want.take(i as int),
                decreases list@.len() - i,
            {
                let ghost before = strings(out@);
                let text = action_of(&list[i]);
                out.push(text);
                proof {
                    assert(strings(out@) =~= before.push(text@));
                    assert(want.take(i + 1) =~= want.take(i as int).push(want[i as int]));
                }
                i = i + 1;
            }
            assert(want.take(i as int) =~= want);
            return out;
        }
    }
    assert(strings(out@) =~= action_texts(m@));
    out
}

/// The texts with the given separator between them.
fn join_strings(list: &Vec<String>, sep: &str) -> (r: String)
    ensures
        r@ == join(strings(list@), sep@),
{
    let mut parts: Vec<&str> = Vec::new();
    let mut i: usize = 0;
    while i < list.len()
        invariant
            i <= list@.len(),
            strs(parts@) == strings(list@).take(i as int),
        decreases list@.len() - i,
    {
        let ghost before = strs(parts@);
        parts.push(list[i].as_str());
        proof {
            assert(strs(parts@) =~= before.push(list@[i as int]@));
            assert(strings(list@).take(i + 1) =~= before.push(strings(list@)[i as int]));
        }
        i = i + 1;
    }
    assert(strs(parts@).subrange(0, parts@.len() as int) =~= strings(list@));
    join_range(parts.as_slice(), 0, parts.len(), sep)
}

/// The text of a content: a plain text, or the parts of a list with spaces between them.
pub fn content_text(c: &Json) -> (r: String)
    ensures
        r@ == text_of(c@),
{
    match c {
        Json::Str(s) => s.clone(),
        Json::Array(parts) => {
            let mut texts: Vec<String> = Vec::new();
            let mut i: usize = 0;
            let ghost all = models(parts@);
            proof {
                assert(all =~= c@->Array_0);
                assert(strings(texts@) =~= part_texts(all.take(0)));
            }
            while i < parts.len()
                invariant
                    i <= parts@.len(),
                    all == models(parts@),
                    strings(texts@) == part_texts(all.take(i as int)),
                decreases parts@.len() - i,
            {
                let part = &parts[i];
                let ghost before = strings(texts@);
                proof {
                    assert(all.take(i + 1).drop_last() =~= all.take(i as int));
                    assert(all.take(i + 1).last() == part@);
                }
                if let Json::Object(_) = part {
                    let text = match get_str(part, "text") {
                        Some(s) => s.to_string(),
                        None => String::new(),
                    };
                    texts.push(text);
                    assert(strings(texts@) =~= before.push(text@));
                    assert(strings(texts@) =~= part_texts(all.take(i + 1)));
                }
                i = i + 1;
            }
            proof {
                assert(all.take(i as int) =~= all);
                reveal_strlit(" ");
                assert(" "@ =~= seq![' ']);
            }
            join_strings(&texts, " ")
        },
        _ => String::new(),
    }
}

/// The role of a message.
fn role(m: &Json) -> (r: Role)
    ensures
        r == role_of(m@),
{
    match get_str(m, "role") {
        Some(name) => if str_eq(name, "assistant") {
            Role::Assistant
        } else if str_eq(name, "user") || str_eq(name, "tool") {
            Role::Reply
        } else {
            Role::Neither
        },
        None => Role::Neither,
    }
}

/// The indices of a list of pairs.
pub open spec fn index_pairs(list: Seq<(usize, usize)>) -> Seq<(int, int)> {
    Seq::new(list.len(), |i: int| (list[i].0 as int, list[i].1 as int))
}

/// The pairs are of messages.
pub open spec fn pairs_within(pairs: Seq<(int, int)>, n: int) -> bool {
    forall|k: int|
        0 <= k < pairs.len() ==> 0 <= (#[trigger] pairs[k]).0 < pairs[k].1 < n
}

/// The steps of a conversation, as pairs of message indices.
pub fn turn_indices(messages: &[Json]) -> (r: Vec<(usize, usize)>)
    ensures
        index_pairs(r@) == step_pairs(models(messages@)),
        pairs_within(index_pairs(r@), messages@.len() as int),
{
    let ghost ms = models(messages@);
    let mut out: Vec<(usize, usize)> = Vec::new();
    let mut pending: Option<usize> = None;
    let mut i: usize = 0;
    assert(index_pairs(out@) =~= seq![]);
    while i < messages.len()
        invariant
            i <= messages@.len(),
            ms == models(messages@),
            index_pairs(out@) == turns(ms, i as nat).pairs,
            pairs_within(index_pairs(out@), i as int),
            match pending {
                Some(a) => turns(ms, i as nat).pending == Some(a as int) && a < i,
                None => turns(ms, i as nat).pending is None,
            },
        decreases messages@.len() - i,
    {
        let m = &messages[i];
        assert(ms[i as int] == m@);
        match role(m) {
            Role::Assistant => {
                pending = Some(i);
            },
            Role::Reply => {
                if let Some(a) = pending {
                    let ghost before = index_pairs(out@);
                    out.push((a, i));
                    assert(index_pairs(out@) =~= before.push((a as int, i as int)));
                    pending = None;
                }
            },
            Role::Neither => {},
        }
        i = i + 1;
    }
    out
}

/// What the steps of a list hold.
pub open spec fn step_views(list: Seq<(String, String)>) -> Seq<(Seq<char>, Seq<char>)> {
    Seq::new(list.len(), |i: int| (list[i].0@, list[i].1@))
}

/// The command and the observation of every step, in order.
pub fn steps_of(messages: &[Json]) -> (r: Vec<(String, String)>)
    ensures
        step_views(r@) == steps(models(messages@)),
        forall|k: int|
            0 <= k < r@.len() ==> whole_content(
                models(messages@)[step_pairs(models(messages@))[k].1],
                (#[trigger] r@[k]).1@,
            ),
{
    let ghost ms = models(messages@);
    let ghost want = steps(ms);
    let pairs = turn_indices(messages);
    let mut out: Vec<(String, String)> = Vec::new();
    let mut k: usize = 0;
    assert(want.take(0) =~= step_views(out@));
    while k < pairs.len()
        invariant
            k <= pairs@.len(),
            ms == models(messages@),
            want == steps(ms),
            index_pairs(pairs@) == step_pairs(ms),
            pairs_within(index_pairs(pairs@), messages@.len() as int),
            step_views(out@) == want.take(k as int),
        decreases pairs@.len() - k,
    {
        let (a, b) = pairs[k];
        assert(index_pairs(pairs@)[k as int] == (a as int, b as int));
        let command = join_strings(&actions(&messages[a]), " ; ");
        let text = match messages[b].get("content") {
            Some(c) => content_text(c),
            None => String::new(),
        };
        let ghost before = step_views(out@);
        out.push((command, text));
        proof {
            reveal_strlit(" ; ");
            assert(" ; "@ =~= action_sep());
            assert(step_views(out@) =~= before.push((command@, text@)));
            assert(want.take(k + 1) =~= before.push(want[k as int]));
        }
        k = k + 1;
    }
    assert(want.take(k as int) =~= want);
    proof {
        assert forall|j: int| 0 <= j < out@.len() implies whole_content(
            ms[step_pairs(ms)[j].1],
            (#[trigger] out@[j]).1@,
        ) by {
            law_observation_is_the_whole_reply(ms, j);
            assert(step_views(out@)[j].1 == out@[j].1@);
        }
    }
    out
}

/// `bool(v)`.
pub fn truthy(v: &Json) -> (r: bool)
    ensures
        r == truth(v@),
{
    match v {
        Json::Null => false,
        Json::Bool(b) => *b,
        Json::Number(Number::Unsigned(n)) => *n != 0,
        Json::Number(Number::Signed(n)) => *n != 0,
        Json::Number(Number::Float(f)) => {
            let digits = f.digits.as_str();
            let k: usize = find_char(digits, |x: char| -> (b: bool) ensures b == (x != '0') { x != '0' }, Ghost(|x: char| x != '0'));
            proof {
                let all = v@->Number_0->Float_0.digits;
                assert(all == digits@);
                if k < digits@.len() {
                    assert(all[k as int] != '0');
                }
            }
            k < char_len(digits)
        },
        Json::Str(s) => !s.as_str().is_empty(),
        Json::Array(a) => a.len() > 0,
        Json::Object(o) => o.len() > 0,
    }
}

/// The sum, which saturates.
fn capped_add(a: i64, b: usize) -> (r: i64)
    requires
        a >= 0,
    ensures
        r == capped(a + b),
{
    let sum: i128 = a as i128 + b as i128;
    if sum > i64::MAX as i128 {
        i64::MAX
    } else {
        sum as i64
    }
}

/// The weight of a value in its JSON text.
fn dumped_weight(v: &Json) -> (n: usize)
    ensures
        n == dumped_tokens(v@),
{
    if truthy(v) {
        char_len(py_json_dumps(v).as_str()) / 4
    } else {
        0
    }
}

/// The weight of what a message has under a key.
fn field_weight(m: &Json, key: &str) -> (n: usize)
    ensures
        n == field_tokens(m@, key@),
{
    match m.get(key) {
        Some(Json::Str(s)) => char_len(s.as_str()) / 4,
        Some(v) => dumped_weight(v),
        None => 0,
    }
}

/// Weights are not negative.
pub proof fn lemma_call_tokens_nonneg(calls: Seq<JsonModel>)
    ensures
        call_tokens(calls) >= 0,
    decreases calls.len(),
{
    if calls.len() > 0 {
        lemma_call_tokens_nonneg(calls.drop_last());
    }
}

/// The reasoning of a message never weighs less than nothing.
pub proof fn law_reasoning_weight_is_not_negative(m: JsonModel)
    ensures
        reasoning_tokens(m) >= 0,
        capped(reasoning_tokens(m)) >= 0,
{
    if let Some(a) = array_field(m, "tool_calls"@) {
        lemma_call_tokens_nonneg(a);
    }
}

/// The weight in tokens of the reasoning that is fed back with a message.
pub fn blob_tokens(m: &Json) -> (n: i64)
    ensures
        n == capped(reasoning_tokens(m@)),
        n >= 0,
{
    let mut tot: i64 = 0;
    if let Some(calls) = get_array(m, "tool_calls") {
        let ghost all = models(calls@);
        let mut i: usize = 0;
        assert(call_tokens(all.take(0)) == 0);
        while i < calls.len()
            invariant
                i <= calls@.len(),
                all == models(calls@),
                tot == capped(call_tokens(all.take(i as int))),
                tot >= 0,
                call_tokens(all.take(i as int)) >= 0,
            decreases calls@.len() - i,
        {
            proof {
                assert(all.take(i + 1).drop_last() =~= all.take(i as int));
                assert(all.take(i + 1).last() == calls@[i as int]@);
            }
            if let Some(v) = calls[i].get("provider_specific_fields") {
                tot = capped_add(tot, dumped_weight(v));
            }
            i = i + 1;
        }
        assert(all.take(i as int) =~= all);
    }
    tot = capped_add(tot, field_weight(m, "provider_specific_fields"));
    tot = capped_add(tot, field_weight(m, "thinking_blocks"));
    capped_add(tot, field_weight(m, "reasoning_content"))
}

/// Filtering one text more.
proof fn lemma_nonempty_push(list: Seq<Seq<char>>, s: Seq<char>)
    ensures
        nonempty(list.push(s)) == if s.len() > 0 {
            nonempty(list).push(s)
        } else {
            nonempty(list)
        },
{
    reveal(Seq::filter);
    assert(list.push(s).drop_last() =~= list);
}

/// The text that stands for the reasoning of a message: its reasoning, or else its actions.
pub fn reasoning_text(m: &Json) -> (r: String)
    ensures
        r@ == reason_text(m@),
{
    if let Some(rc) = get_str(m, "reasoning_content") {
        if py_has_content(rc) {
            return char_prefix(rc, REASON_TEXT).to_string();
        }
    }
    let acts = actions(m);
    let mut kept: Vec<String> = Vec::new();
    let mut i: usize = 0;
    let ghost all = strings(acts@);
    proof {
        reveal(Seq::filter);
        assert(nonempty(all.take(0)) =~= strings(kept@));
    }
    while i < acts.len()
        invariant
            i <= acts@.len(),
            all == strings(acts@),
            strings(kept@) == nonempty(all.take(i as int)),
        decreases acts@.len() - i,
    {
        let ghost before = strings(kept@);
        proof {
            assert(all.take(i + 1) =~= all.take(i as int).push(all[i as int]));
            lemma_nonempty_push(all.take(i as int), all[i as int]);
        }
        if !acts[i].as_str().is_empty() {
            let act = acts[i].clone();
            kept.push(act);
            assert(strings(kept@) =~= before.push(act@));
        }
        i = i + 1;
    }
    let joined = join_strings(&kept, " ; ");
    proof {
        assert(all.take(i as int) =~= all);
        reveal_strlit(" ; ");
        assert(" ; "@ =~= action_sep());
    }
    let t = char_prefix(joined.as_str(), REASON_TEXT);
    if t.is_empty() {
        "reasoning".to_string()
    } else {
        t.to_string()
    }
}

/// The chunk of what an option holds.
pub open spec fn opt_chunk(c: Option<Chunk>) -> Option<ChunkModel> {
    match c {
        Some(x) => Some(x@),
        None => None,
    }
}

/// One chunk for the reasoning that is fed back with a message, if that weighs anything.
pub fn reasoning_chunk(m: &Json, step: i64) -> (r: Option<Chunk>)
    ensures
        opt_chunk(r) == reason_chunk(m@, step),
{
    let tok: i64 = blob_tokens(m);
    proof {
        law_reasoning_weight_is_not_negative(m@);
    }
    if tok <= 0 {
        return None;
    }
    let mut c = Chunk::new(reasoning_text(m).as_str(), None, None, None, step, "reasoning").with_tokens(tok);
    c.evict = "provider".to_string();
    Some(c)
}

/// The reasoning chunks of all steps, each with the index of its step.
pub fn reasoning_chunks_of(messages: &[Json]) -> (r: Vec<Chunk>)
    ensures
        chunks(r@) == reasoning_through(models(messages@), step_pairs(models(messages@)).len()),
        thoughts_of_steps(chunks(r@), models(messages@), steps(models(messages@)).len() as int),
{
    let ghost ms = models(messages@);
    proof {
        assert(ms.len() == messages.len());
        law_reasoning_of_a_conversation(ms);
    }
    let pairs = turn_indices(messages);
    let mut out: Vec<Chunk> = Vec::new();
    let mut k: usize = 0;
    assert(chunks(out@) =~= reasoning_through(ms, 0));
    while k < pairs.len()
        invariant
            k <= pairs@.len(),
            ms == models(messages@),
            index_pairs(pairs@) == step_pairs(ms),
            pairs_within(index_pairs(pairs@), messages@.len() as int),
            chunks(out@) == reasoning_through(ms, k as nat),
        decreases pairs@.len() - k,
    {
        let (a, b) = pairs[k];
        assert(index_pairs(pairs@)[k as int] == (a as int, b as int));
        let ghost before = chunks(out@);
        if let Some(c) = reasoning_chunk(&messages[a], k as i64) {
            out.push(c);
            assert(chunks(out@) =~= before.push(c@));
        }
        k = k + 1;
    }
    out
}

/// Whether a part is plain text.
fn is_text_part(part: &Json) -> (r: bool)
    ensures
        r == text_part(part@),
{
    match part {
        Json::Object(_) => match part.get("type") {
            None => true,
            Some(Json::Str(s)) => str_eq(s.as_str(), "text"),
            Some(_) => false,
        },
        _ => false,
    }
}

/// Whether a content is plain text.
fn is_text_only(content: &Json) -> (r: bool)
    ensures
        r == text_only(content@),
{
    match content {
        Json::Str(_) => true,
        Json::Array(parts) => {
            let mut i: usize = 0;
            let ghost all = content@->Array_0;
            while i < parts.len()
                invariant
                    i <= parts@.len(),
                    content@ == JsonModel::Array(all),
                    all.len() == parts@.len(),
                    forall|j: int| 0 <= j < all.len() ==> #[trigger] all[j] == parts@[j]@,
                    forall|j: int| 0 <= j < i ==> text_part(#[trigger] all[j]),
                decreases parts@.len() - i,
            {
                assert(all[i as int] == parts@[i as int]@);
                if !is_text_part(&parts[i]) {
                    assert(!text_part(all[i as int]));
                    return false;
                }
                i = i + 1;
            }
            true
        },
        _ => false,
    }
}

/// The chunks of what the agent says, each with the index of its step. Messages whose content is
/// not plain text are left out.
pub fn assistant_chunks_of(messages: &[Json]) -> (r: Vec<Chunk>)
    ensures
        chunks(r@) == said_through(models(messages@), step_pairs(models(messages@)).len()),
        words_of_steps(chunks(r@), steps(models(messages@)).len() as int),
{
    let ghost ms = models(messages@);
    proof {
        assert(ms.len() == messages.len());
        law_said_chunks_of_a_conversation(ms);
    }
    let pairs = turn_indices(messages);
    let mut out: Vec<Chunk> = Vec::new();
    let mut k: usize = 0;
    assert(chunks(out@) =~= said_through(ms, 0));
    while k < pairs.len()
        invariant
            k <= pairs@.len(),
            ms == models(messages@),
            index_pairs(pairs@) == step_pairs(ms),
            pairs_within(index_pairs(pairs@), messages@.len() as int),
            chunks(out@) == said_through(ms, k as nat),
        decreases pairs@.len() - k,
    {
        let (a, b) = pairs[k];
        assert(index_pairs(pairs@)[k as int] == (a as int, b as int));
        let mut text = String::new();
        if let Some(c) = messages[a].get("content") {
            if is_text_only(c) {
                text = content_text(c);
            }
        }
        assert(text@ =~= said(ms[a as int]));
        let mut list = chunk_assistant(text.as_str(), k as i64, DEFAULT_WIN);
        let ghost before = chunks(out@);
        let ghost added = chunks(list@);
        out.append(&mut list);
        assert(chunks(out@) =~= before + added);
        k = k + 1;
    }
    out
}

} // verus!
