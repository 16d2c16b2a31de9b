//! Laws of conversations: how steps pair messages, and how chunks align with steps.
use vstd::prelude::*;

use crate::chunk::{ChunkModel, DEFAULT_WIN};
use crate::json::JsonModel;
use crate::laws::chunks::{in_step_order, law_text_windows_have_content, text_window};
use crate::laws::coverage::{chunk_lines, content_lines, law_assistant_text_is_covered, lemma_chunk_lines_concat, lemma_content_lines_concat, lemma_content_lines_none, lemma_lines_have_no_feeds};
use crate::messages::{reason_chunk, reasoning_through, reasoning_tokens, role_of, said, said_chunks, said_through, step_pairs, steps, turns, Role};
use crate::pystr::splitlines;

verus! {

/// Between two messages neither the agent speaks nor anyone replies.
pub open spec fn silent(ms: Seq<JsonModel>, from: int, to: int) -> bool {
    forall|i: int| from < i < to ==> role_of(#[trigger] ms[i]) is Neither
}

/// The message `r` answers the message `a`: the agent speaks in `a`, `r` replies, and nothing of
/// either kind stands between them.
pub open spec fn answers(ms: Seq<JsonModel>, a: int, r: int) -> bool {
    &&& 0 <= a < r < ms.len()
    &&& role_of(ms[a]) is Assistant
    &&& role_of(ms[r]) is Reply
    &&& silent(ms, a, r)
}

/// The pairs are answers in order, and no message stands in two of them.
pub open spec fn ordered_answers(ms: Seq<JsonModel>, pairs: Seq<(int, int)>) -> bool {
    &&& forall|k: int| 0 <= k < pairs.len() ==> answers(ms, (#[trigger] pairs[k]).0, pairs[k].1)
    &&& forall|j: int, k: int| 0 <= j < k < pairs.len() ==> (#[trigger] pairs[j]).1 < (#[trigger] pairs[k]).0
}

/// The turns among the first `n` messages: answers in order, none missing, and the message that
/// waits is the last in which the agent speaks, with no reply yet.
proof fn lemma_turns(ms: Seq<JsonModel>, n: nat)
    requires
        n <= ms.len(),
    ensures
        ordered_answers(ms, turns(ms, n).pairs),
        forall|k: int| 0 <= k < turns(ms, n).pairs.len() ==> (#[trigger] turns(ms, n).pairs[k]).1 < n,
        forall|a: int, r: int| #[trigger] answers(ms, a, r) && r < n ==> turns(ms, n).pairs.contains((a, r)),
        match turns(ms, n).pending {
            Some(a) => {
                &&& 0 <= a < n
                &&& role_of(ms[a]) is Assistant
                &&& silent(ms, a, n as int)
                &&& forall|k: int| 0 <= k < turns(ms, n).pairs.len() ==> (#[trigger] turns(ms, n).pairs[k]).1 < a
            },
            None => forall|a: int|
                0 <= a < n && role_of(#[trigger] ms[a]) is Assistant ==> !silent(ms, a, n as int),
        },
    decreases n,
{
    if n > 0 {
        let t = turns(ms, (n - 1) as nat);
        let u = turns(ms, n);
        let m = ms[n - 1];
        lemma_turns(ms, (n - 1) as nat);
        match role_of(m) {
            Role::Assistant => {
                assert forall|a: int, r: int| #[trigger] answers(ms, a, r) && r < n implies u.pairs.contains((a, r)) by {
                    assert(r != n - 1);
                }
            },
            Role::Reply => {
                match t.pending {
                    Some(p) => {
                        assert(answers(ms, p, n - 1));
                        assert forall|k: int| 0 <= k < u.pairs.len() implies answers(
                            ms,
                            (#[trigger] u.pairs[k]).0,
                            u.pairs[k].1,
                        ) && u.pairs[k].1 < n by {
                            if k < t.pairs.len() {
                                assert(u.pairs[k] == t.pairs[k]);
                            }
                        }
                        assert forall|j: int, k: int| 0 <= j < k < u.pairs.len() implies (#[trigger] u.pairs[j]).1 < (
                        #[trigger] u.pairs[k]).0 by {
                            assert(u.pairs[j] == t.pairs[j]);
                            if k < t.pairs.len() {
                                assert(u.pairs[k] == t.pairs[k]);
                            }
                        }
                        assert forall|a: int, r: int| #[trigger] answers(ms, a, r) && r < n implies u.pairs.contains(
                            (a, r),
                        ) by {
                            if r < n - 1 {
                                assert(t.pairs.contains((a, r)));
                                let k = t.pairs.index_of((a, r));
                                assert(u.pairs[k] == (a, r));
                            } else {
                                if a < p {
                                    assert(role_of(ms[p]) is Neither);
                                } else if p < a {
                                    assert(role_of(ms[a]) is Neither);
                                }
                                assert(u.pairs[t.pairs.len() as int] == (a, r));
                            }
                        }
                    },
                    None => {
                        assert forall|a: int, r: int| #[trigger] answers(ms, a, r) && r < n implies u.pairs.contains(
                            (a, r),
                        ) by {
                            if r == n - 1 {
                                assert(role_of(ms[a]) is Assistant);
                                assert(silent(ms, a, n - 1));
                            }
                        }
                    },
                }
                assert forall|a: int| 0 <= a < n && role_of(#[trigger] ms[a]) is Assistant implies !silent(
                    ms,
                    a,
                    n as int,
                ) by {
                    assert(a < n - 1);
                    assert(!(role_of(ms[n - 1]) is Neither));
                }
            },
            Role::Neither => {
                assert forall|a: int, r: int| #[trigger] answers(ms, a, r) && r < n implies u.pairs.contains((a, r)) by {
                    assert(r != n - 1);
                }
                match t.pending {
                    Some(p) => {
                        assert(silent(ms, p, n as int));
                    },
                    None => {
                        assert forall|a: int| 0 <= a < n && role_of(#[trigger] ms[a]) is Assistant implies !silent(
                            ms,
                            a,
                            n as int,
                        ) by {
                            assert(a < n - 1);
                            assert(!silent(ms, a, n - 1));
                        }
                    },
                }
            },
        }
    }
}

/// The steps of a conversation are exactly the answers in it, in order, and no message belongs to
/// two steps.
pub proof fn law_steps_are_the_answers(ms: Seq<JsonModel>)
    ensures
        ordered_answers(ms, step_pairs(ms)),
        forall|a: int, r: int| #[trigger] answers(ms, a, r) ==> step_pairs(ms).contains((a, r)),
{
    lemma_turns(ms, ms.len());
}

/// How many of the first `n` messages are of the agent.
pub open spec fn spoken(ms: Seq<JsonModel>, n: nat) -> nat
    decreases n,
{
    if n == 0 {
        0
    } else {
        spoken(ms, (n - 1) as nat) + if role_of(ms[n - 1]) is Assistant {
            1nat
        } else {
            0nat
        }
    }
}

/// How many of the first `n` messages are replies.
pub open spec fn replied(ms: Seq<JsonModel>, n: nat) -> nat
    decreases n,
{
    if n == 0 {
        0
    } else {
        replied(ms, (n - 1) as nat) + if role_of(ms[n - 1]) is Reply {
            1nat
        } else {
            0nat
        }
    }
}

/// Every pair takes one message of each kind, and so does the message that waits.
proof fn lemma_turn_counts(ms: Seq<JsonModel>, n: nat)
    ensures
        turns(ms, n).pairs.len() + if turns(ms, n).pending is Some {
            1nat
        } else {
            0nat
        } <= spoken(ms, n),
        turns(ms, n).pairs.len() <= replied(ms, n),
        spoken(ms, n) + replied(ms, n) <= n,
    decreases n,
{
    if n > 0 {
        lemma_turn_counts(ms, (n - 1) as nat);
    }
}

/// There are no more steps than messages of the agent, no more than replies, and at most one for
/// every two messages.
pub proof fn law_steps_are_no_more_than_turns(ms: Seq<JsonModel>)
    ensures
        steps(ms).len() <= spoken(ms, ms.len()),
        steps(ms).len() <= replied(ms, ms.len()),
        2 * steps(ms).len() <= ms.len(),
{
    lemma_turn_counts(ms, ms.len());
}

/// A chunk of reasoning: it weighs something and only the provider can evict it.
pub open spec fn thought(c: ChunkModel) -> bool {
    &&& c.tokens > 0
    &&& c.evict == "provider"@
    &&& c.kind == "reasoning"@
}

/// The chunks are the reasoning of the first `n` steps: each is that of the step whose index it
/// has, in order, and none is missing.
pub open spec fn thoughts_of_steps(list: Seq<ChunkModel>, ms: Seq<JsonModel>, n: int) -> bool {
    &&& forall|i: int| #![trigger list[i]]
        0 <= i < list.len() ==> {
            &&& thought(list[i])
            &&& 0 <= list[i].step < n
            &&& reason_chunk(ms[step_pairs(ms)[list[i].step as int].0], list[i].step) == Some(list[i])
        }
    &&& forall|i: int, j: int| 0 <= i < j < list.len() ==> (#[trigger] list[i]).step < (#[trigger] list[j]).step
    &&& forall|k: int|
        0 <= k < n && reasoning_tokens(ms[(#[trigger] step_pairs(ms)[k]).0]) > 0 ==> list.contains(
            reason_chunk(ms[step_pairs(ms)[k].0], k as i64)->0,
        )
}

/// The reasoning chunks of the first `n` steps: one for every step whose message carries
/// reasoning, under the index of that step, in order.
pub proof fn law_reasoning_aligns_with_steps(ms: Seq<JsonModel>, n: nat)
    requires
        n <= step_pairs(ms).len(),
        n <= i64::MAX,
    ensures
        thoughts_of_steps(reasoning_through(ms, n), ms, n as int),
    decreases n,
{
    if n > 0 {
        let s = n - 1;
        let before = reasoning_through(ms, s as nat);
        let all = reasoning_through(ms, n);
        let m = ms[step_pairs(ms)[s].0];
        law_reasoning_aligns_with_steps(ms, s as nat);
        match reason_chunk(m, s as i64) {
            Some(c) => {
                assert(all == before.push(c));
                assert forall|i: int| #![trigger all[i]] 0 <= i < all.len() implies {
                    let d = all[i];
                    &&& thought(d)
                    &&& 0 <= d.step < n
                    &&& reason_chunk(ms[step_pairs(ms)[d.step as int].0], d.step) == Some(d)
                } by {
                    if i < before.len() {
                        assert(all[i] == before[i]);
                    } else {
                        assert(all[i] == c);
                        assert(c.step == s);
                    }
                }
                assert forall|i: int, j: int| 0 <= i < j < all.len() implies (#[trigger] all[i]).step < (#[trigger] all[j]).step by {
                    assert(all[i] == before[i]);
                    if j < before.len() {
                        assert(all[j] == before[j]);
                    }
                }
                assert forall|k: int|
                    0 <= k < n && reasoning_tokens(ms[(#[trigger] step_pairs(ms)[k]).0])
                        > 0 implies all.contains(reason_chunk(ms[step_pairs(ms)[k].0], k as i64)->0) by {
                    if k < s {
                        let x = reason_chunk(ms[step_pairs(ms)[k].0], k as i64)->0;
                        assert(before.contains(x));
                        let i = before.index_of(x);
                        assert(all[i] == x);
                    } else {
                        assert(all[before.len() as int] == c);
                    }
                }
            },
            None => {},
        }
    }
}

/// The reasoning chunks of a conversation that memory can hold are those of its steps, each under
/// the index of its step, in order.
pub proof fn law_reasoning_of_a_conversation(ms: Seq<JsonModel>)
    requires
        ms.len() <= usize::MAX,
    ensures
        thoughts_of_steps(
            reasoning_through(ms, step_pairs(ms).len()),
            ms,
            steps(ms).len() as int,
        ),
{
    law_steps_are_no_more_than_turns(ms);
    law_reasoning_aligns_with_steps(ms, step_pairs(ms).len());
}

/// The chunks are of what is said in the first `n` steps: in the order of the steps, and each a
/// window of text that has content.
pub open spec fn words_of_steps(list: Seq<ChunkModel>, n: int) -> bool {
    &&& in_step_order(list, n)
    &&& forall|i: int|
        0 <= i < list.len() ==> text_window(#[trigger] list[i], DEFAULT_WIN as nat, list[i].step, "asst"@)
}

/// The chunks of what the agent says come in the order of the steps, and each is a window of text
/// that has content.
pub proof fn law_said_chunks_align_with_steps(ms: Seq<JsonModel>, n: nat)
    requires
        n <= step_pairs(ms).len(),
        n <= i64::MAX,
    ensures
        words_of_steps(said_through(ms, n), n as int),
    decreases n,
{
    if n > 0 {
        let s = n - 1;
        let before = said_through(ms, s as nat);
        let m = ms[step_pairs(ms)[s].0];
        let added = said_chunks(m, s as i64);
        let all = said_through(ms, n);
        law_said_chunks_align_with_steps(ms, s as nat);
        lemma_lines_have_no_feeds(said(m));
        law_text_windows_have_content(splitlines(said(m)), DEFAULT_WIN as nat, s as i64, "asst"@);
        assert(all == before + added);
        assert forall|i: int| 0 <= i < all.len() implies text_window(
            #[trigger] all[i],
            DEFAULT_WIN as nat,
            all[i].step,
            "asst"@,
        ) && 0 <= all[i].step < n && (i < before.len() ==> all[i].step < s) && (i >= before.len() ==> all[i].step == s) by {
            if i < before.len() {
                assert(all[i] == before[i]);
            } else {
                assert(all[i] == added[i - before.len()]);
            }
        }
        assert forall|i: int, j: int| 0 <= i <= j < all.len() implies (#[trigger] all[i]).step <= (#[trigger] all[j]).step by {
            if j < before.len() {
                assert(all[i] == before[i] && all[j] == before[j]);
            }
        }
    }
}

/// The chunks of what the agent says in a conversation that memory can hold come in the order of its
/// steps, and each is a window of text that has content.
pub proof fn law_said_chunks_of_a_conversation(ms: Seq<JsonModel>)
    requires
        ms.len() <= usize::MAX,
    ensures
        words_of_steps(said_through(ms, step_pairs(ms).len()), steps(ms).len() as int),
{
    law_steps_are_no_more_than_turns(ms);
    law_said_chunks_align_with_steps(ms, step_pairs(ms).len());
}

/// The lines with content of what the agent says in the first `n` steps.
pub open spec fn said_lines(ms: Seq<JsonModel>, n: nat) -> Seq<Seq<char>>
    decreases n,
{
    if n == 0 {
        seq![]
    } else {
        said_lines(ms, (n - 1) as nat) + content_lines(splitlines(said(ms[step_pairs(ms)[n - 1].0])))
    }
}

/// Full coverage for what the agent says: every line with content of every step's message is in a
/// chunk, once and in order.
pub proof fn law_said_chunks_cover(ms: Seq<JsonModel>, n: nat)
    ensures
        content_lines(chunk_lines(said_through(ms, n))) == said_lines(ms, n),
    decreases n,
{
    let all = said_through(ms, n);
    if n == 0 {
        lemma_content_lines_none(chunk_lines(all));
    } else {
        let s = n - 1;
        let before = said_through(ms, s as nat);
        let m = ms[step_pairs(ms)[s].0];
        let added = said_chunks(m, s as i64);
        law_said_chunks_cover(ms, s as nat);
        law_assistant_text_is_covered(said(m), s as i64, DEFAULT_WIN as nat);
        lemma_chunk_lines_concat(before, added);
        lemma_content_lines_concat(chunk_lines(before), chunk_lines(added));
    }
}

} // verus!
