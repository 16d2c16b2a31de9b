//! Laws of conversations over the messages themselves: what a step, its chunks and its weight are,
//! by what the messages have under their keys.
use vstd::prelude::*;

use crate::chunk::ChunkModel;
use crate::chunking::text_chunks;
use crate::dumps::dumps;
use crate::json::{entry, field, JsonModel, NumberModel};
use crate::laws::chunks::{law_text_chunks_are_weighed, weighed};
use crate::laws::coverage::{chunk_lines, content_lines, law_assistant_text_is_covered};
use crate::laws::observations::{head_of, lemma_filter_all_or_none, of_step};
use crate::laws::turns::{answers, law_said_chunks_align_with_steps, law_steps_are_the_answers};
use crate::laws::words::law_join_of_parts;
use crate::messages::{action_sep, action_text, action_texts, call_tokens, capped, nonempty, part_texts, reason_chunk, reason_text, reasoning_tokens, role_of, said, said_chunks, said_through, step_pairs, steps, text_of, text_only, text_part, truth};
use crate::pystr::{has_content, splitlines};
use crate::text::join;

verus! {

/// What a value has under a key is what its first entry with that key has.
pub proof fn law_field_is_the_first_entry(
    before: Seq<(Seq<char>, JsonModel)>,
    key: Seq<char>,
    v: JsonModel,
    after: Seq<(Seq<char>, JsonModel)>,
)
    requires
        forall|i: int| 0 <= i < before.len() ==> (#[trigger] before[i]).0 != key,
    ensures
        field(JsonModel::Object(before + seq![(key, v)] + after), key) == Some(v),
        field(JsonModel::Object(before), key) is None,
    decreases before.len(),
{
    let all = before + seq![(key, v)] + after;
    if before.len() > 0 {
        let rest = before.drop_first();
        assert forall|i: int| 0 <= i < rest.len() implies (#[trigger] rest[i]).0 != key by {
            assert(rest[i] == before[i + 1]);
        }
        law_field_is_the_first_entry(rest, key, v, after);
        assert(all.drop_first() =~= rest + seq![(key, v)] + after);
        assert(all[0] == before[0]);
        assert(before[0].0 != key);
    } else {
        assert(all[0] == (key, v));
    }
}

/// Only objects have anything under a key.
pub proof fn law_only_objects_have_fields(v: JsonModel, key: Seq<char>)
    requires
        !(v is Object),
    ensures
        field(v, key) is None,
{
}

/// One entry more, behind the others, changes only what is under its key, and that only where there
/// was nothing.
proof fn lemma_entry_push(entries: Seq<(Seq<char>, JsonModel)>, key: Seq<char>, v: JsonModel, other: Seq<char>)
    ensures
        entry(entries.push((key, v)), other) == match entry(entries, other) {
            Some(w) => Some(w),
            None => if other == key {
                Some(v)
            } else {
                None
            },
        },
    decreases entries.len(),
{
    let all = entries.push((key, v));
    if entries.len() > 0 {
        lemma_entry_push(entries.drop_first(), key, v, other);
        assert(all.drop_first() =~= entries.drop_first().push((key, v)));
        assert(all[0] == entries[0]);
    } else {
        assert(all[0] == (key, v));
        assert(all.drop_first() =~= seq![]);
        assert(entry(all.drop_first(), other) is None);
    }
}

/// The role of a message is what it has under `role`: the agent speaks as `assistant`, and `user` and
/// `tool` reply.
pub proof fn law_role_is_under_its_key(m: JsonModel, name: Seq<char>)
    ensures
        field(m, "role"@) == Some(JsonModel::Str(name)) ==> {
            &&& role_of(m) is Assistant <==> name == "assistant"@
            &&& role_of(m) is Reply <==> name == "user"@ || name == "tool"@
        },
        !(field(m, "role"@) matches Some(JsonModel::Str(s))) ==> role_of(m) is Neither,
{
    reveal_strlit("assistant");
    reveal_strlit("user");
    reveal_strlit("tool");
    assert("assistant"@.len() == 9 && "user"@.len() == 4 && "tool"@.len() == 4);
}

/// The texts of the parts of a list follow from the parts: those of two lists are the one's and the
/// other's, an object has its text or an empty one, and anything else has none.
pub proof fn law_part_texts_of_parts(a: Seq<JsonModel>, b: Seq<JsonModel>, part: JsonModel)
    ensures
        part_texts(a + b) == part_texts(a) + part_texts(b),
        part is Object ==> part_texts(seq![part]) == seq![
            match field(part, "text"@) {
                Some(JsonModel::Str(s)) => s,
                _ => Seq::<char>::empty(),
            },
        ],
        !(part is Object) ==> part_texts(seq![part]) == Seq::<Seq<char>>::empty(),
    decreases b.len(),
{
    assert(seq![part].drop_last() =~= seq![]);
    assert(part_texts(seq![part].drop_last()) =~= seq![]);
    if part is Object {
        assert(part_texts(seq![part]) =~= seq![
            match field(part, "text"@) {
                Some(JsonModel::Str(s)) => s,
                _ => Seq::<char>::empty(),
            },
        ]);
    }
    if b.len() == 0 {
        assert(a + b =~= a);
        assert(part_texts(a) + part_texts(b) =~= part_texts(a));
    } else {
        law_part_texts_of_parts(a, b.drop_last(), part);
        assert((a + b).drop_last() =~= a + b.drop_last());
        assert((a + b).last() == b.last());
        assert(part_texts(a + b) =~= part_texts(a) + part_texts(b));
    }
}

/// The text of a content is the content where that is a text, its parts with a space between them
/// where it is a list, and otherwise empty.
pub proof fn law_text_of_a_content(c: JsonModel)
    ensures
        c matches JsonModel::Str(s) ==> text_of(c) == s,
        c matches JsonModel::Array(parts) ==> text_of(c) == join(part_texts(parts), seq![' ']),
        !(c is Str) && !(c is Array) ==> text_of(c).len() == 0,
{
}

/// The text is all that a message has under `content`: a text as it is, the texts of the parts of a
/// list with a space between them, and nothing for anything else.
pub open spec fn whole_content(m: JsonModel, text: Seq<char>) -> bool {
    match field(m, "content"@) {
        Some(JsonModel::Str(s)) => text == s,
        Some(JsonModel::Array(parts)) => text == join(part_texts(parts), seq![' ']),
        _ => text.len() == 0,
    }
}

/// The observation of a step is the whole text of its reply: what the reply has under `content`,
/// where that is a text, with all its lines; the texts of its parts with a space between them, where
/// it is a list; and otherwise nothing.
pub proof fn law_observation_is_the_whole_reply(ms: Seq<JsonModel>, k: int)
    requires
        0 <= k < steps(ms).len(),
    ensures
        answers(ms, step_pairs(ms)[k].0, step_pairs(ms)[k].1),
        field(ms[step_pairs(ms)[k].1], "content"@) matches Some(JsonModel::Str(s)) ==> steps(ms)[k].1 == s,
        field(ms[step_pairs(ms)[k].1], "content"@) matches Some(JsonModel::Array(parts)) ==> steps(ms)[k].1 == join(
            part_texts(parts),
            seq![' '],
        ),
        field(ms[step_pairs(ms)[k].1], "content"@) is None ==> steps(ms)[k].1.len() == 0,
        field(ms[step_pairs(ms)[k].1], "content"@) matches Some(c) ==> !(c is Str) && !(c is Array)
            ==> steps(ms)[k].1.len() == 0,
        whole_content(ms[step_pairs(ms)[k].1], steps(ms)[k].1),
{
    law_steps_are_the_answers(ms);
}

/// The text is what an action does: its command, if that is a text and not empty, or else its query,
/// if that is a text, or else nothing.
pub open spec fn does(action: JsonModel, text: Seq<char>) -> bool {
    let command = field(action, "command"@);
    let query = field(action, "query"@);
    if command matches Some(JsonModel::Str(s)) && s.len() > 0 {
        command == Some(JsonModel::Str(text))
    } else if query matches Some(JsonModel::Str(q)) {
        query == Some(JsonModel::Str(text))
    } else {
        text.len() == 0
    }
}

/// What the actions of a message do, by what it has under `extra` and `actions`.
pub proof fn law_actions_are_under_their_keys(m: JsonModel, extra: JsonModel, acts: Seq<JsonModel>)
    requires
        field(m, "extra"@) == Some(extra),
        field(extra, "actions"@) == Some(JsonModel::Array(acts)),
    ensures
        action_texts(m).len() == acts.len(),
        forall|i: int| 0 <= i < acts.len() ==> does(#[trigger] acts[i], action_texts(m)[i]),
{
    assert forall|i: int| 0 <= i < acts.len() implies does(#[trigger] acts[i], action_texts(m)[i]) by {
        assert(action_texts(m)[i] == action_text(acts[i]));
    }
}

/// A message without such a list does nothing.
pub proof fn law_without_actions_nothing_is_done(m: JsonModel)
    requires
        field(m, "extra"@) matches Some(extra) ==> !(field(extra, "actions"@) matches Some(JsonModel::Array(acts))),
    ensures
        action_texts(m).len() == 0,
{
}

/// The command of a step is what the actions of its message do, with ` ; ` between them.
pub proof fn law_command_is_what_the_actions_do(
    ms: Seq<JsonModel>,
    k: int,
    extra: JsonModel,
    acts: Seq<JsonModel>,
    texts: Seq<Seq<char>>,
)
    requires
        0 <= k < steps(ms).len(),
        field(ms[step_pairs(ms)[k].0], "extra"@) == Some(extra),
        field(extra, "actions"@) == Some(JsonModel::Array(acts)),
        texts.len() == acts.len(),
        forall|i: int| 0 <= i < acts.len() ==> does(#[trigger] acts[i], texts[i]),
    ensures
        steps(ms)[k].0 == join(texts, seq![' ', ';', ' ']),
{
    let m = ms[step_pairs(ms)[k].0];
    law_actions_are_under_their_keys(m, extra, acts);
    assert forall|i: int| 0 <= i < acts.len() implies #[trigger] texts[i] == action_texts(m)[i] by {
        assert(does(acts[i], texts[i]));
        assert(does(acts[i], action_texts(m)[i]));
        if !(field(acts[i], "command"@) matches Some(JsonModel::Str(s)) && s.len() > 0) {
            if !(field(acts[i], "query"@) matches Some(JsonModel::Str(q))) {
                assert(texts[i] =~= action_texts(m)[i]);
            }
        }
    }
    assert(texts =~= action_texts(m));
}

/// The command of a step whose message has no list of actions is empty.
pub proof fn law_command_without_actions_is_empty(ms: Seq<JsonModel>, k: int)
    requires
        0 <= k < steps(ms).len(),
        field(ms[step_pairs(ms)[k].0], "extra"@) matches Some(extra) ==> !(field(extra, "actions"@) matches Some(
            JsonModel::Array(acts),
        )),
    ensures
        steps(ms)[k].0.len() == 0,
{
    law_without_actions_nothing_is_done(ms[step_pairs(ms)[k].0]);
}

/// What the agent says in a step, as a relation to its message: a text under `content` as it is; a
/// list of text parts (objects whose type is `text` or not given) with a space between them; and
/// nothing for anything else.
pub open spec fn says(m: JsonModel, text: Seq<char>) -> bool {
    match field(m, "content"@) {
        Some(JsonModel::Str(s)) => text == s,
        Some(JsonModel::Array(parts)) => if plain_parts(parts) {
            text == join(part_texts(parts), seq![' '])
        } else {
            text.len() == 0
        },
        _ => text.len() == 0,
    }
}

/// Every part is an object whose type is `text` or not given.
pub open spec fn plain_parts(parts: Seq<JsonModel>) -> bool {
    forall|i: int|
        0 <= i < parts.len() ==> (#[trigger] parts[i]) is Object && (field(parts[i], "type"@) is None || field(
            parts[i],
            "type"@,
        ) == Some(JsonModel::Str("text"@)))
}

/// What counts as said is what the message says.
proof fn lemma_said(m: JsonModel, text: Seq<char>)
    requires
        says(m, text),
    ensures
        said(m) == text,
{
    match field(m, "content"@) {
        Some(JsonModel::Array(parts)) => {
            if plain_parts(parts) {
                assert forall|i: int| 0 <= i < parts.len() implies text_part(#[trigger] parts[i]) by {
                    assert(parts[i] is Object);
                }
                assert(text_only(JsonModel::Array(parts)));
            } else {
                let i = choose|i: int|
                    0 <= i < parts.len() && !((#[trigger] parts[i]) is Object && (field(parts[i], "type"@) is None
                        || field(parts[i], "type"@) == Some(JsonModel::Str("text"@))));
                assert(!text_part(parts[i]));
                assert(!text_only(JsonModel::Array(parts)));
                assert(said(m) =~= text);
            }
        },
        Some(JsonModel::Str(s)) => {},
        _ => {
            assert(said(m) =~= text);
        },
    }
}

/// The chunks of what the agent says in a step are those of the whole text that the message of that
/// step says, by windows of 40 lines: they hold every line of it that has content, once and in
/// order, and without such a line there is none.
pub proof fn law_said_chunks_hold_the_whole_message(ms: Seq<JsonModel>, n: nat, k: int, text: Seq<char>)
    requires
        0 <= k < n <= step_pairs(ms).len(),
        n <= i64::MAX,
        says(ms[step_pairs(ms)[k].0], text),
    ensures
        said_through(ms, n).filter(of_step(k)) == text_chunks(splitlines(text), 40, k as i64, "asst"@),
        content_lines(chunk_lines(said_through(ms, n).filter(of_step(k)))) == content_lines(splitlines(text)),
    decreases n,
{
    let p = of_step(k);
    let t = n - 1;
    let m = ms[step_pairs(ms)[t].0];
    let before = said_through(ms, t as nat);
    let added = said_chunks(m, t as i64);
    assert(said_through(ms, n) == before + added);
    Seq::filter_distributes_over_add(before, added, p);
    law_text_chunks_are_weighed(splitlines(said(m)), 40, t as i64, "asst"@);
    assert forall|i: int| 0 <= i < added.len() implies (#[trigger] added[i]).step == t by {
        assert(weighed(added[i], t as i64));
    }
    lemma_filter_all_or_none(added, p);
    lemma_filter_all_or_none(before, p);
    if k == t {
        lemma_said(m, text);
        law_said_chunks_align_with_steps(ms, t as nat);
        assert(Seq::<ChunkModel>::empty() + added =~= added);
    } else {
        law_said_chunks_hold_the_whole_message(ms, t as nat, k, text);
        assert(before.filter(p) + Seq::<ChunkModel>::empty() =~= before.filter(p));
    }
    law_assistant_text_is_covered(text, k as i64, 40);
}

/// What counts as true: not null, not false, not zero, and not empty.
pub proof fn law_truth_of_values(v: JsonModel)
    ensures
        v is Null ==> !truth(v),
        v matches JsonModel::Bool(b) ==> truth(v) == b,
        v matches JsonModel::Number(NumberModel::Int(i)) ==> (truth(v) <==> i != 0),
        v matches JsonModel::Number(NumberModel::Float(f)) ==> (truth(v) <==> exists|i: int|
            0 <= i < f.digits.len() && #[trigger] f.digits[i] != '0'),
        v matches JsonModel::Str(s) ==> (truth(v) <==> s.len() > 0),
        v matches JsonModel::Array(a) ==> (truth(v) <==> a.len() > 0),
        v matches JsonModel::Object(o) ==> (truth(v) <==> o.len() > 0),
{
}

/// A quarter of the length of the JSON text of a value, rounded down, where it counts as true.
pub open spec fn payload(v: JsonModel) -> int {
    if truth(v) {
        dumps(v, false, true).len() as int / 4
    } else {
        0
    }
}

/// The weight of tool calls adds up: that of two lists is the sum, and a single call weighs what the
/// provider added to it.
pub proof fn law_calls_add_up(a: Seq<JsonModel>, b: Seq<JsonModel>, call: JsonModel)
    ensures
        call_tokens(a + b) == call_tokens(a) + call_tokens(b),
        field(call, "provider_specific_fields"@) matches Some(v) ==> call_tokens(seq![call]) == payload(v),
        field(call, "provider_specific_fields"@) is None ==> call_tokens(seq![call]) == 0,
        call_tokens(Seq::<JsonModel>::empty()) == 0,
    decreases b.len(),
{
    assert(seq![call].drop_last() =~= seq![]);
    assert(call_tokens(seq![call].drop_last()) == 0);
    if b.len() == 0 {
        assert(a + b =~= a);
    } else {
        law_calls_add_up(a, b.drop_last(), call);
        assert((a + b).drop_last() =~= a + b.drop_last());
        assert((a + b).last() == b.last());
    }
}

/// What a message with one entry more weighs: under one of the three keys of reasoning a quarter of
/// the text, or of the JSON text of what is no text and counts as true; under `tool_calls` the calls of
/// a list; and nothing under any other key.
pub open spec fn entry_weight(key: Seq<char>, v: JsonModel) -> int {
    if key == "provider_specific_fields"@ || key == "thinking_blocks"@ || key == "reasoning_content"@ {
        match v {
            JsonModel::Str(s) => s.len() as int / 4,
            _ => payload(v),
        }
    } else if key == "tool_calls"@ {
        match v {
            JsonModel::Array(calls) => call_tokens(calls),
            _ => 0,
        }
    } else {
        0
    }
}

/// The reasoning of a message weighs what its entries weigh, one by one; without entries it weighs
/// nothing.
pub proof fn law_reasoning_weight_adds_up(
    entries: Seq<(Seq<char>, JsonModel)>,
    key: Seq<char>,
    v: JsonModel,
)
    requires
        field(JsonModel::Object(entries), key) is None,
    ensures
        reasoning_tokens(JsonModel::Object(entries.push((key, v)))) == reasoning_tokens(JsonModel::Object(entries))
            + entry_weight(key, v),
        reasoning_tokens(JsonModel::Object(Seq::<(Seq<char>, JsonModel)>::empty())) == 0,
{
    reveal_strlit("provider_specific_fields");
    reveal_strlit("thinking_blocks");
    reveal_strlit("reasoning_content");
    reveal_strlit("tool_calls");
    assert("provider_specific_fields"@.len() == 24);
    assert("thinking_blocks"@.len() == 15);
    assert("reasoning_content"@.len() == 17);
    assert("tool_calls"@.len() == 10);
    lemma_entry_push(entries, key, v, "provider_specific_fields"@);
    lemma_entry_push(entries, key, v, "thinking_blocks"@);
    lemma_entry_push(entries, key, v, "reasoning_content"@);
    lemma_entry_push(entries, key, v, "tool_calls"@);
    let none = Seq::<(Seq<char>, JsonModel)>::empty();
    assert(entry(none, "provider_specific_fields"@) is None);
    assert(entry(none, "thinking_blocks"@) is None);
    assert(entry(none, "reasoning_content"@) is None);
    assert(entry(none, "tool_calls"@) is None);
}

/// What is no object carries no reasoning.
pub proof fn law_only_objects_carry_reasoning(m: JsonModel)
    requires
        !(m is Object),
    ensures
        reasoning_tokens(m) == 0,
{
}

/// A weight is counted as it is, as far as `i64` goes.
pub proof fn law_weight_is_counted(n: int)
    ensures
        i64::MIN <= n <= i64::MAX ==> capped(n) == n,
        n > i64::MAX ==> capped(n) == i64::MAX,
{
}

/// The text that stands for the reasoning of a message: the first 2000 characters of its reasoning,
/// where that is a text with content.
pub proof fn law_reasoning_stands_for_itself(m: JsonModel, text: Seq<char>)
    requires
        field(m, "reasoning_content"@) == Some(JsonModel::Str(text)),
        has_content(text),
    ensures
        head_of(reason_text(m), text, 2000),
{
    assert(text.take(text.len() as int) =~= text);
}

/// Without such reasoning the actions stand for it: the first 2000 characters of those that do
/// something, with ` ; ` between them, or `reasoning` where none does.
pub proof fn law_actions_stand_for_reasoning(m: JsonModel, doing: Seq<Seq<char>>)
    requires
        field(m, "reasoning_content"@) matches Some(JsonModel::Str(text)) ==> !has_content(text),
        doing == action_texts(m).filter(|s: Seq<char>| s.len() > 0),
    ensures
        doing.len() > 0 ==> head_of(reason_text(m), join(doing, seq![' ', ';', ' ']), 2000),
        doing.len() == 0 ==> reason_text(m) == "reasoning"@,
{
    let all = join(doing, action_sep());
    assert(doing == nonempty(action_texts(m)));
    assert(all.take(all.len() as int) =~= all);
    if doing.len() > 0 {
        broadcast use vstd::seq_lib::group_filter_ensures;

        let p = |s: Seq<char>| s.len() > 0;
        assert(p(doing[0]));
        assert(doing[0].len() > 0);
        if doing.len() > 1 {
            law_join_of_parts(doing.take(1), doing.skip(1), doing[0], action_sep());
            assert(doing.take(1) + doing.skip(1) =~= doing);
        }
        assert(all.len() > 0);
    }
}

/// The chunk of the reasoning of a message: there is one exactly if the reasoning weighs anything,
/// and it has that weight, the text that stands for it, and the step.
pub proof fn law_reasoning_chunk_weighs_the_reasoning(m: JsonModel, step: i64)
    ensures
        reason_chunk(m, step) is Some <==> reasoning_tokens(m) > 0,
        reason_chunk(m, step) matches Some(c) ==> {
            &&& c.text == reason_text(m)
            &&& reasoning_tokens(m) <= i64::MAX ==> c.tokens == reasoning_tokens(m)
            &&& reasoning_tokens(m) > i64::MAX ==> c.tokens == i64::MAX
            &&& c.step == step
            &&& c.kind == "reasoning"@
            &&& c.evict == "provider"@
            &&& c.file is None
            &&& c.lo is None
            &&& c.hi is None
            &&& c.rc is None
            &&& c.cmd.len() == 0
            &&& c.head.len() == 0
            &&& c.struct_class.len() == 0
        },
{
}

/// A further entry under a key that a message has already weighs nothing.
pub proof fn law_repeated_entries_weigh_nothing(
    entries: Seq<(Seq<char>, JsonModel)>,
    key: Seq<char>,
    v: JsonModel,
)
    requires
        field(JsonModel::Object(entries), key) is Some,
    ensures
        reasoning_tokens(JsonModel::Object(entries.push((key, v)))) == reasoning_tokens(JsonModel::Object(entries)),
{
    lemma_entry_push(entries, key, v, "provider_specific_fields"@);
    lemma_entry_push(entries, key, v, "thinking_blocks"@);
    lemma_entry_push(entries, key, v, "reasoning_content"@);
    lemma_entry_push(entries, key, v, "tool_calls"@);
}

/// Every answer in a conversation is a step of it, whose observation is the whole text of the reply.
pub proof fn law_every_answer_is_a_step(ms: Seq<JsonModel>, a: int, r: int) -> (k: int)
    requires
        answers(ms, a, r),
    ensures
        steps(ms).len() == step_pairs(ms).len(),
        0 <= k < steps(ms).len(),
        step_pairs(ms)[k] == (a, r),
        whole_content(ms[r], steps(ms)[k].1),
{
    law_steps_are_the_answers(ms);
    let k = step_pairs(ms).index_of((a, r));
    law_observation_is_the_whole_reply(ms, k);
    k
}

} // verus!
