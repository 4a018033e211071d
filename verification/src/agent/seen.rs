//! What the model sees of a session, said of the events of the log and the messages of the
//! history alone.

use crate::agent::session;
use crate::agent::session::SessionEventV;
use crate::agent::types::{ContentBlockV, LlmMessageV, LlmRole, ToolCallV};
use crate::rows;
use vstd::prelude::*;

verus! {

/// The result of the call is somewhere in the log.
pub open spec fn was_answered(log: Seq<SessionEventV>) -> spec_fn(ToolCallV) -> bool {
    |c: ToolCallV|
        exists|r: int|
            0 <= r < log.len() && ((#[trigger] log[r]) matches SessionEventV::ToolResult {
                call_id,
                ..
            } && call_id == c.id)
}

/// Some message of the assistant in the log makes the call.
pub open spec fn was_made(log: Seq<SessionEventV>, id: Seq<char>) -> bool {
    exists|a: int|
        0 <= a < log.len() && ((#[trigger] log[a]) matches SessionEventV::AssistantMessage {
            tool_calls,
            ..
        } && tool_calls.any(|c: ToolCallV| c.id == id))
}

/// The message says what the event says: a user's message its text, a tool's message the
/// result with its call, its text and whether it is an error, and an assistant's message its
/// text, if it has one, and behind it those of its calls that were answered, in their order.
pub open spec fn says_the_same(log: Seq<SessionEventV>, e: SessionEventV, m: LlmMessageV) -> bool {
    match e {
        SessionEventV::UserMessage { content, .. } => {
            &&& m.role == LlmRole::User
            &&& m.content.len() == 1
            &&& m.content[0] == ContentBlockV::Text(content)
        },
        SessionEventV::ToolResult { call_id, content, is_error } => {
            &&& m.role == LlmRole::Tool
            &&& m.content.len() == 1
            &&& m.content[0] == (ContentBlockV::ToolResult {
                tool_call_id: call_id,
                content,
                is_error,
            })
        },
        SessionEventV::AssistantMessage { content, tool_calls, .. } => {
            let texts: int = if content.len() == 0 {
                0
            } else {
                1
            };
            let calls = tool_calls.filter(was_answered(log));
            &&& m.role == LlmRole::Assistant
            &&& m.content.len() == texts + calls.len()
            &&& texts == 1 ==> m.content[0] == ContentBlockV::Text(content)
            &&& forall|k: int|
                0 <= k < calls.len() ==> m.content[texts + k] == ContentBlockV::ToolCall(
                    #[trigger] calls[k],
                )
        },
        _ => false,
    }
}

/// The messages are what the model sees of the log: the one numbered `i` says what the event
/// numbered `at[i]` says, in the order of the events and each event once; and no event is
/// passed over that is a user's message, a message of the assistant with a text or with a call
/// that was answered, or the result of a call that was made.
pub open spec fn is_seen_at(log: Seq<SessionEventV>, ms: Seq<LlmMessageV>, at: Seq<int>) -> bool {
    &&& at.len() == ms.len()
    &&& forall|i: int|
        0 <= i < at.len() ==> 0 <= #[trigger] at[i] < log.len() && says_the_same(
            log,
            log[at[i]],
            ms[i],
        )
    &&& forall|i: int, j: int| 0 <= i < j < at.len() ==> (#[trigger] at[i]) < (#[trigger] at[j])
    &&& forall|e: int| 0 <= e < log.len() && (#[trigger] log[e]) is UserMessage ==> at.contains(e)
    &&& forall|e: int|
        0 <= e < log.len() && ((#[trigger] log[e]) matches SessionEventV::AssistantMessage {
            content,
            tool_calls,
            ..
        } && (content.len() > 0 || tool_calls.any(was_answered(log)))) ==> at.contains(e)
    &&& forall|e: int|
        0 <= e < log.len() && ((#[trigger] log[e]) matches SessionEventV::ToolResult {
            call_id,
            ..
        } && was_made(log, call_id)) ==> at.contains(e)
    &&& forall|i: int|
        0 <= i < at.len() ==> (log[#[trigger] at[i]] matches SessionEventV::ToolResult {
            call_id,
            ..
        } ==> was_made(log, call_id))
}

/// The messages are what the model sees of the log.
pub open spec fn is_seen(log: Seq<SessionEventV>, ms: Seq<LlmMessageV>) -> bool {
    exists|at: Seq<int>| #[trigger] is_seen_at(log, ms, at)
}

/// The history is the log as the model sees it.
pub proof fn law_the_model_sees_the_log(log: Seq<SessionEventV>)
    ensures
        is_seen(log, session::history(log)),
{
    let at = lemma_sources(log, log.len() as int);
    assert(is_seen_at(log, session::history(log), at));
}

/// Every result of a call that was made reaches the model as it was recorded: in a message of
/// the tool with nothing else in it.
pub proof fn law_every_result_reaches_the_model(log: Seq<SessionEventV>, e: int, a: int, j: int)
    requires
        0 <= e < log.len(),
        0 <= a < log.len(),
        log[e] is ToolResult,
        log[a] is AssistantMessage,
        0 <= j < log[a]->AssistantMessage_tool_calls.len(),
        log[a]->AssistantMessage_tool_calls[j].id == log[e]->ToolResult_call_id,
    ensures
        exists|i: int|
            0 <= i < session::history(log).len() && (#[trigger] session::history(log)[i]).role
                == LlmRole::Tool && session::history(log)[i].content == seq![
                ContentBlockV::ToolResult {
                    tool_call_id: log[e]->ToolResult_call_id,
                    content: log[e]->ToolResult_content,
                    is_error: log[e]->is_error,
                },
            ],
{
    let at = lemma_sources(log, log.len() as int);
    let id = log[e]->ToolResult_call_id;
    let calls = log[a]->AssistantMessage_tool_calls;
    let same = |c: ToolCallV| c.id == id;
    assert(same(calls[j]));
    assert(calls.any(same));
    assert(was_made(log, id));
    assert(at.contains(e));
    let i = choose|i: int| 0 <= i < at.len() && at[i] == e;
    let m = session::history(log)[i];
    assert(says_the_same(log, log[at[i]], m));
    assert(m.content =~= seq![m.content[0]]);
}

proof fn lemma_answered_is_filter(log: Seq<SessionEventV>, calls: Seq<ToolCallV>)
    ensures
        session::answered_calls(log, calls).len() == calls.filter(was_answered(log)).len(),
        forall|k: int|
            0 <= k < calls.filter(was_answered(log)).len() ==> session::answered_calls(
                log,
                calls,
            )[k] == ContentBlockV::ToolCall(#[trigger] calls.filter(was_answered(log))[k]),
    decreases calls.len(),
{
    reveal(Seq::filter);
    if calls.len() > 0 {
        lemma_answered_is_filter(log, calls.drop_last());
        lemma_answered(log, calls.last());
    }
}

proof fn lemma_answered(log: Seq<SessionEventV>, c: ToolCallV)
    ensures
        session::has_result(log, c.id) == was_answered(log)(c),
{
    if session::has_result(log, c.id) {
        let r = choose|r: int|
            0 <= r < log.len() && session::is_result_for(#[trigger] log[r], c.id);
        assert(log[r] matches SessionEventV::ToolResult { call_id, .. } && call_id == c.id);
    }
    if was_answered(log)(c) {
        let r = choose|r: int|
            0 <= r < log.len() && ((#[trigger] log[r]) matches SessionEventV::ToolResult {
                call_id,
                ..
            } && call_id == c.id);
        assert(session::is_result_for(log[r], c.id));
    }
}

proof fn lemma_made(log: Seq<SessionEventV>, id: Seq<char>)
    ensures
        session::has_call(log, id) == was_made(log, id),
{
    let same = |c: ToolCallV| c.id == id;
    if session::has_call(log, id) {
        let a = choose|a: int| 0 <= a < log.len() && session::makes_call(#[trigger] log[a], id);
        match log[a] {
            SessionEventV::AssistantMessage { tool_calls, .. } => {
                let j = choose|j: int|
                    0 <= j < tool_calls.len() && (#[trigger] tool_calls[j]).id == id;
                assert(same(tool_calls[j]));
                assert(tool_calls.any(same));
            },
            _ => {},
        }
    }
    if was_made(log, id) {
        let a = choose|a: int|
            0 <= a < log.len() && ((#[trigger] log[a]) matches SessionEventV::AssistantMessage {
                tool_calls,
                ..
            } && tool_calls.any(|c: ToolCallV| c.id == id));
        match log[a] {
            SessionEventV::AssistantMessage { tool_calls, .. } => {
                let j = choose|j: int|
                    0 <= j < tool_calls.len() && same(#[trigger] tool_calls[j]);
                assert(tool_calls[j].id == id);
            },
            _ => {},
        }
        assert(session::makes_call(log[a], id));
    }
}

proof fn lemma_some_answered(log: Seq<SessionEventV>, calls: Seq<ToolCallV>)
    requires
        calls.any(was_answered(log)),
    ensures
        session::answered_calls(log, calls).len() > 0,
{
    let p = was_answered(log);
    let j = choose|j: int| 0 <= j < calls.len() && p(#[trigger] calls[j]);
    rows::lemma_kept(calls, p);
    rows::lemma_kept_is_filter(calls, p);
    assert(calls.filter(p).contains(calls[j]));
    lemma_answered_is_filter(log, calls);
}

/// What is seen of one event.
proof fn lemma_seen(log: Seq<SessionEventV>, e: SessionEventV)
    ensures
        session::projected(log, e) matches Some(m) ==> says_the_same(log, e, m),
        e is UserMessage ==> session::projected(log, e) is Some,
        (e matches SessionEventV::AssistantMessage { content, tool_calls, .. } && (content.len() > 0
            || tool_calls.any(was_answered(log)))) ==> session::projected(log, e) is Some,
        e matches SessionEventV::ToolResult { call_id, .. } ==> (session::projected(log, e) is Some
            <==> was_made(log, call_id)),
{
    match e {
        SessionEventV::AssistantMessage { content, tool_calls, .. } => {
            lemma_answered_is_filter(log, tool_calls);
            if tool_calls.any(was_answered(log)) {
                lemma_some_answered(log, tool_calls);
            }
            let blocks = session::assistant_blocks(log, content, tool_calls);
            let answered = session::answered_calls(log, tool_calls);
            let texts: int = if content.len() == 0 {
                0
            } else {
                1
            };
            assert forall|k: int| 0 <= k < answered.len() implies #[trigger] blocks[texts + k]
                == answered[k] by {}
        },
        SessionEventV::ToolResult { call_id, .. } => {
            lemma_made(log, call_id);
        },
        _ => {},
    }
}

proof fn lemma_sources(log: Seq<SessionEventV>, n: int) -> (at: Seq<int>)
    requires
        0 <= n <= log.len(),
    ensures
        at.len() == session::history_of_first(log, n).len(),
        forall|i: int|
            0 <= i < at.len() ==> 0 <= #[trigger] at[i] < n && says_the_same(
                log,
                log[at[i]],
                session::history_of_first(log, n)[i],
            ),
        forall|i: int, j: int| 0 <= i < j < at.len() ==> (#[trigger] at[i]) < (#[trigger] at[j]),
        forall|e: int|
            0 <= e < n && session::projected(log, #[trigger] log[e]) is Some ==> at.contains(e),
        forall|e: int|
            0 <= e < n && (#[trigger] log[e]) is UserMessage ==> at.contains(e),
        forall|e: int|
            0 <= e < n && ((#[trigger] log[e]) matches SessionEventV::AssistantMessage {
                content,
                tool_calls,
                ..
            } && (content.len() > 0 || tool_calls.any(was_answered(log)))) ==> at.contains(e),
        forall|e: int|
            0 <= e < n && ((#[trigger] log[e]) matches SessionEventV::ToolResult { call_id, .. }
                && was_made(log, call_id)) ==> at.contains(e),
        forall|i: int|
            0 <= i < at.len() ==> (log[#[trigger] at[i]] matches SessionEventV::ToolResult {
                call_id,
                ..
            } ==> was_made(log, call_id)),
    decreases n,
{
    if n == 0 {
        Seq::empty()
    } else {
        let before = lemma_sources(log, n - 1);
        lemma_seen(log, log[n - 1]);
        if session::projected(log, log[n - 1]) is Some {
            let at = before.push(n - 1);
            assert(at[at.len() - 1] == n - 1);
            assert(at.contains(n - 1));
            assert forall|e: int| before.contains(e) implies at.contains(e) by {
                let x = choose|x: int| 0 <= x < before.len() && before[x] == e;
                assert(at[x] == e);
            }
            at
        } else {
            before
        }
    }
}

} // verus!
