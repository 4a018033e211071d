//! What a step leaves behind, said of the events of the stream, of the records of the tools
//! and of what stands in the log afterwards.

use crate::agent::error::LoopError;
use crate::agent::session::{SessionEventV, TurnEndReason};
use crate::agent::tool_calls::ToolExecution;
use crate::agent::turn;
use crate::agent::turn::{AgentV, LoopConfig, Phase, TurnMove, TurnOutcomeV};
use crate::agent::types::{FinishReasonV, LlmError, StreamEventV, TokenUsage, ToolCallV};
use vstd::prelude::*;

verus! {

/// The state after the moves, one behind the other.
pub open spec fn after(s: AgentV, c: LoopConfig, ms: Seq<TurnMove>) -> AgentV
    decreases ms.len(),
{
    if ms.len() == 0 {
        s
    } else {
        turn::moved(after(s, c, ms.drop_last()), c, ms.last())
    }
}

/// The moves by which a stream is read.
pub open spec fn reads(evs: Seq<StreamEventV>) -> Seq<TurnMove> {
    Seq::new(evs.len(), |i: int| TurnMove::Event(evs[i]))
}

pub open spec fn is_text() -> spec_fn(StreamEventV) -> bool {
    |e: StreamEventV| e is TextDelta
}

pub open spec fn is_call() -> spec_fn(StreamEventV) -> bool {
    |e: StreamEventV| e is ToolCall
}

pub open spec fn is_usage() -> spec_fn(StreamEventV) -> bool {
    |e: StreamEventV| e is Usage
}

/// The pieces of text one behind the other.
pub open spec fn joined(pieces: Seq<StreamEventV>) -> Seq<char>
    decreases pieces.len(),
{
    if pieces.len() == 0 {
        Seq::empty()
    } else {
        joined(pieces.drop_last()) + (match pieces.last() {
            StreamEventV::TextDelta(t) => t,
            _ => Seq::empty(),
        })
    }
}

/// Whether these are the calls of the stream, in its order.
pub open spec fn are_its_calls(evs: Seq<StreamEventV>, calls: Seq<ToolCallV>) -> bool {
    &&& calls.len() == evs.filter(is_call()).len()
    &&& forall|i: int|
        0 <= i < calls.len() ==> (evs.filter(is_call())[i] matches StreamEventV::ToolCall {
            call,
            ..
        } && call == #[trigger] calls[i])
}

/// Whether this is the last count that the stream gives, or `before` where it gives none.
pub open spec fn is_its_usage(
    evs: Seq<StreamEventV>,
    before: Option<TokenUsage>,
    usage: Option<TokenUsage>,
) -> bool {
    if evs.filter(is_usage()).len() == 0 {
        usage == before
    } else {
        evs.filter(is_usage()).last() matches StreamEventV::Usage(u) && usage == Some(u)
    }
}

/// While a stream is read, the step has the text and the calls of what has come, the turn has
/// the text behind what it had, and nothing is written into the log.
pub proof fn law_a_step_has_what_came(s: AgentV, c: LoopConfig, evs: Seq<StreamEventV>)
    requires
        s.step_content.len() == 0,
        s.step_calls.len() == 0,
        s.step_usage is None,
        forall|i: int| 0 <= i < evs.len() ==> !((#[trigger] evs[i]) is Finish),
    ensures
        ({
            let t = after(s, c, reads(evs));
            &&& t.step_content == joined(evs.filter(is_text()))
            &&& t.content == s.content + joined(evs.filter(is_text()))
            &&& are_its_calls(evs, t.step_calls)
            &&& is_its_usage(evs, None, t.step_usage)
            &&& is_its_usage(evs, s.usage, t.usage)
            &&& t.log == s.log
            &&& t.phase == s.phase
            &&& t.turn == s.turn
            &&& t.steps == s.steps
            &&& t.retries == s.retries
        }),
    decreases evs.len(),
{
    reveal(Seq::filter);
    if evs.len() == 0 {
        assert(s.content + Seq::<char>::empty() =~= s.content);
        assert(s.step_content =~= Seq::empty());
    } else {
        let init = evs.drop_last();
        let e = evs.last();
        assert forall|i: int| 0 <= i < init.len() implies !((#[trigger] init[i]) is Finish) by {
            assert(init[i] == evs[i]);
        }
        law_a_step_has_what_came(s, c, init);
        assert(reads(evs).drop_last() =~= reads(init));
        assert(reads(evs).last() == TurnMove::Event(e));
        assert(!(evs[evs.len() - 1] is Finish));
        let texts = init.filter(is_text());
        assert(texts.push(e).drop_last() =~= texts);
        let calls = init.filter(is_call());
        match e {
            StreamEventV::TextDelta(t) => {
                assert(evs.filter(is_text()) == texts.push(e));
                assert(s.content + joined(texts) + t =~= s.content + (joined(texts) + t));
            },
            StreamEventV::ToolCall { call, .. } => {
                assert(evs.filter(is_call()) == calls.push(e));
                let before = after(s, c, reads(init)).step_calls;
                let all = after(s, c, reads(evs)).step_calls;
                assert forall|i: int| 0 <= i < all.len() implies (evs.filter(
                    is_call(),
                )[i] matches StreamEventV::ToolCall { call, .. } && call == #[trigger] all[i]) by {
                    if i < before.len() {
                        assert(all[i] == before[i]);
                        assert(evs.filter(is_call())[i] == calls[i]);
                    }
                }
            },
            _ => {},
        }
    }
}

/// A whole reply is written into the log as it came: its text, its calls and its count, and
/// behind it each call by itself. With no calls the turn is over, and its outcome has the
/// turn's text.
pub proof fn law_a_reply_is_written_down(
    s: AgentV,
    c: LoopConfig,
    evs: Seq<StreamEventV>,
    end: Option<FinishReasonV>,
)
    requires
        s.phase == Phase::Requesting,
        s.step_content.len() == 0,
        s.step_calls.len() == 0,
        s.step_usage is None,
        forall|i: int| 0 <= i < evs.len() ==> !((#[trigger] evs[i]) is Finish),
    ensures
        ({
            let open = turn::moved(s, c, TurnMove::Opened);
            let read = after(open, c, reads(evs));
            let whole = match end {
                Some(r) => turn::moved(read, c, TurnMove::Event(StreamEventV::Finish(r))),
                None => turn::moved(read, c, TurnMove::StreamEnded),
            };
            let t = turn::moved(whole, c, TurnMove::ReplyDone);
            let n = s.log.len() as int;
            let calls = read.step_calls;
            &&& turn::may(s, TurnMove::Opened)
            &&& turn::may(open, TurnMove::StreamEnded)
            &&& turn::may(whole, TurnMove::ReplyDone)
            &&& s.log.is_prefix_of(t.log)
            &&& t.log[n] matches SessionEventV::AssistantMessage {
                content,
                tool_calls,
                usage,
                interrupted,
            } && content == joined(evs.filter(is_text())) && are_its_calls(evs, tool_calls)
                && tool_calls == calls && is_its_usage(evs, None, usage) && !interrupted
            &&& calls.len() == 0 ==> {
                &&& t.log.len() == n + 2
                &&& t.log[n + 1] matches SessionEventV::TurnEnd { turn, reason } && turn == s.turn
                    && reason == TurnEndReason::Completed
                &&& t.phase == Phase::Idle
                &&& turn::outcome_of(whole, c, TurnMove::ReplyDone)
                    matches Some(TurnOutcomeV::Completed { content, usage, turns_used }) && content
                    == s.content + joined(evs.filter(is_text())) && is_its_usage(
                    evs,
                    s.usage,
                    usage,
                ) && turns_used == s.steps
            }
            &&& calls.len() > 0 ==> {
                &&& t.log.len() == n + 1 + calls.len()
                &&& forall|k: int|
                    #![trigger calls[k]]
                    0 <= k < calls.len() ==> (t.log[n + 1 + k] matches SessionEventV::ToolCall {
                        call_id,
                        name,
                        arguments,
                    } && call_id == calls[k].id && name == calls[k].name && arguments
                        == calls[k].arguments)
                &&& t.phase == Phase::Tools
                &&& turn::outcome_of(whole, c, TurnMove::ReplyDone) is None
            }
        }),
{
    let open = turn::moved(s, c, TurnMove::Opened);
    law_a_step_has_what_came(open, c, evs);
    let read = after(open, c, reads(evs));
    let rec = turn::recorded(read, false).log;
    lemma_calls_logged(rec, read.step_calls, read.step_calls.len() as int);
    let whole = match end {
        Some(r) => turn::moved(read, c, TurnMove::Event(StreamEventV::Finish(r))),
        None => turn::moved(read, c, TurnMove::StreamEnded),
    };
    let t = turn::moved(whole, c, TurnMove::ReplyDone);
    let n = s.log.len() as int;
    assert(rec[n] == t.log[n]);
    assert forall|i: int| 0 <= i < n implies t.log[i] == s.log[i] by {
        assert(rec[i] == s.log[i]);
    }
    assert(s.log =~= t.log.subrange(0, n));
    assert(turn::recorded(whole, false).log == rec);
    if read.step_calls.len() > 0 {
        assert(t.log == rec + Seq::new(
            read.step_calls.len(),
            |k: int|
                SessionEventV::ToolCall {
                    call_id: read.step_calls[k].id,
                    name: read.step_calls[k].name,
                    arguments: read.step_calls[k].arguments,
                },
        ));
        let calls = read.step_calls;
        assert forall|k: int| #![trigger calls[k]] 0 <= k < calls.len() implies (t.log[n + 1
            + k] matches SessionEventV::ToolCall { call_id, name, arguments } && call_id
            == calls[k].id && name == calls[k].name && arguments == calls[k].arguments) by {}
    }
}

proof fn lemma_calls_logged(log: Seq<SessionEventV>, calls: Seq<ToolCallV>, n: int)
    requires
        0 <= n <= calls.len(),
    ensures
        turn::with_calls_logged(log, calls, n) == log + Seq::new(
            n as nat,
            |k: int|
                SessionEventV::ToolCall {
                    call_id: calls[k].id,
                    name: calls[k].name,
                    arguments: calls[k].arguments,
                },
        ),
    decreases n,
{
    if n > 0 {
        lemma_calls_logged(log, calls, n - 1);
    }
    assert(turn::with_calls_logged(log, calls, n) =~= log + Seq::new(
        n as nat,
        |k: int|
            SessionEventV::ToolCall {
                call_id: calls[k].id,
                name: calls[k].name,
                arguments: calls[k].arguments,
            },
    ));
}

proof fn lemma_results_logged(log: Seq<SessionEventV>, runs: Seq<ToolExecution>, n: int)
    requires
        0 <= n <= runs.len(),
    ensures
        turn::with_results_logged(log, runs, n) == log + Seq::new(
            n as nat,
            |k: int|
                SessionEventV::ToolResult {
                    call_id: runs[k].result.call_id@,
                    content: runs[k].result.content@,
                    is_error: runs[k].result.is_error,
                },
        ),
    decreases n,
{
    if n > 0 {
        lemma_results_logged(log, runs, n - 1);
    }
    assert(turn::with_results_logged(log, runs, n) =~= log + Seq::new(
        n as nat,
        |k: int|
            SessionEventV::ToolResult {
                call_id: runs[k].result.call_id@,
                content: runs[k].result.content@,
                is_error: runs[k].result.is_error,
            },
    ));
}

/// The results of the tools are written into the log, one for each record and in their order,
/// with the content and the mark of each; the next step is due then.
pub proof fn law_results_are_written_down(s: AgentV, c: LoopConfig, runs: Seq<ToolExecution>)
    ensures
        ({
            let t = turn::moved(s, c, TurnMove::ToolsDone(runs));
            &&& t.log == s.log + Seq::new(
                runs.len(),
                |k: int|
                    SessionEventV::ToolResult {
                        call_id: runs[k].result.call_id@,
                        content: runs[k].result.content@,
                        is_error: runs[k].result.is_error,
                    },
            )
            &&& t == (AgentV { log: t.log, phase: Phase::Between, ..s })
        }),
{
    lemma_results_logged(s.log, runs, runs.len() as int);
}

/// A turn begins with its start and the user's words; nothing of an earlier turn is left.
pub proof fn law_a_turn_begins_afresh(s: AgentV, input: Seq<char>)
    requires
        s.log.filter(|e: SessionEventV| e is TurnStart).len() < u32::MAX,
    ensures
        ({
            let t = turn::begun(s, input);
            let n = s.log.len() as int;
            &&& t.turn == s.log.filter(|e: SessionEventV| e is TurnStart).len() + 1
            &&& s.log.is_prefix_of(t.log)
            &&& t.log[n] matches SessionEventV::TurnStart { turn } && turn == t.turn
            &&& input.len() == 0 ==> t.log.len() == n + 1
            &&& input.len() > 0 ==> t.log.len() == n + 2 && (t.log[n
                + 1] matches SessionEventV::UserMessage { content, .. } && content == input)
            &&& t.phase == Phase::Between
            &&& t.steps == 0
            &&& t.retries == 0
            &&& t.content.len() == 0
            &&& t.usage is None
        }),
{
    lemma_turns_counted(s.log);
    let t = turn::begun(s, input);
    assert(s.log =~= t.log.subrange(0, s.log.len() as int));
}

proof fn lemma_turns_counted(log: Seq<SessionEventV>)
    ensures
        crate::agent::session::turns_begun(log) == log.filter(
            |e: SessionEventV| e is TurnStart,
        ).len(),
    decreases log.len(),
{
    reveal(Seq::filter);
    if log.len() > 0 {
        lemma_turns_counted(log.drop_last());
    }
}

/// A step begins unless the turn was cancelled or has used up its requests; then the turn ends
/// with what it has. A step that begins has nothing yet and counts as one more.
pub proof fn law_a_step_begins_or_the_turn_ends(s: AgentV, c: LoopConfig, cancelled: bool)
    requires
        s.steps < u32::MAX,
    ensures
        ({
            let m = TurnMove::Step { cancelled };
            let t = turn::moved(s, c, m);
            let n = s.log.len() as int;
            &&& t.log.len() == n + 1
            &&& s.log == t.log.drop_last()
            &&& t.content == s.content && t.usage == s.usage && t.turn == s.turn
            &&& if !cancelled && s.steps < c.max_turns {
                &&& t.phase == Phase::Requesting
                &&& t.log[n] matches SessionEventV::StepStart { turn, step } && turn == s.turn
                    && step == s.steps + 1
                &&& t.steps == s.steps + 1
                &&& t.step_content.len() == 0 && t.step_calls.len() == 0 && t.step_usage is None
                &&& turn::outcome_of(s, c, m) is None
            } else {
                &&& t.phase == Phase::Idle
                &&& t.log[n] matches SessionEventV::TurnEnd { turn, reason } && turn == s.turn
                    && reason == if cancelled {
                    TurnEndReason::Aborted
                } else {
                    TurnEndReason::MaxTokens
                }
                &&& t.steps == s.steps
                &&& match turn::outcome_of(s, c, m) {
                    Some(TurnOutcomeV::Cancelled { content, usage, turns_used }) => cancelled
                        && content == s.content && usage == s.usage && turns_used == s.steps,
                    Some(TurnOutcomeV::MaxTurns { content, usage, turns_used }) => !cancelled
                        && content == s.content && usage == s.usage && turns_used == s.steps,
                    _ => false,
                }
            }
        }),
{
    let t = turn::moved(s, c, TurnMove::Step { cancelled });
    assert(s.log =~= t.log.drop_last());
}

/// A failure ends the turn where the step has produced something. Else the hooks are asked,
/// and the same failure is the outcome's unless one of them wants another try and there are
/// tries left; each try that is made counts.
pub proof fn law_a_failure_is_tried_again_or_told(
    s: AgentV,
    c: LoopConfig,
    e: LlmError,
    wants: bool,
    log: Seq<SessionEventV>,
    worth_it: bool,
)
    requires
        s.phase == Phase::Requesting || s.phase == Phase::Streaming,
        s.retries < usize::MAX,
    ensures
        ({
            let action = if wants {
                Some(crate::agent::hooks::RetryAction::Retry)
            } else {
                None
            };
            let failed = TurnMove::Failed(e);
            let answered = TurnMove::HooksAnswered(action);
            let prepared = TurnMove::Prepared { log, worth_it };
            let f = turn::moved(s, c, failed);
            let p = turn::moved(f, c, answered);
            let t = turn::moved(p, c, prepared);
            let produced = s.phase == Phase::Streaming && (s.step_content.len() > 0
                || s.step_calls.len() > 0);
            &&& produced ==> f.phase == Phase::Idle && is_told(turn::outcome_of(s, c, failed), s, e)
                && ends_in_error(s.log, f.log, s.turn)
            &&& !produced ==> {
                &&& f.phase == Phase::Failing && f.log == s.log && turn::outcome_of(
                    s,
                    c,
                    failed,
                ) is None
                &&& !(wants && s.retries < c.max_request_retries) ==> p.phase == Phase::Idle
                    && is_told(turn::outcome_of(f, c, answered), s, e) && ends_in_error(
                    s.log,
                    p.log,
                    s.turn,
                )
                &&& wants && s.retries < c.max_request_retries ==> {
                    &&& p.phase == Phase::Preparing && p.log == s.log && turn::outcome_of(
                        f,
                        c,
                        answered,
                    ) is None
                    &&& worth_it ==> t.phase == Phase::Between && t.retries == s.retries + 1
                        && t.log == log && t.steps == s.steps && t.content == s.content
                        && turn::outcome_of(p, c, prepared) is None
                    &&& !worth_it ==> t.phase == Phase::Idle && is_told(
                        turn::outcome_of(p, c, prepared),
                        s,
                        e,
                    ) && ends_in_error(log, t.log, s.turn)
                }
            }
        }),
{
}

/// Whether the outcome is the failure, with what the turn has.
pub open spec fn is_told(o: Option<TurnOutcomeV>, s: AgentV, e: LlmError) -> bool {
    o matches Some(TurnOutcomeV::Failed { content, usage, turns_used, err }) && content == s.content
        && usage == s.usage && turns_used == s.steps && err == LoopError::Llm(e)
}

/// Whether the log is what it was with the end of the turn in error behind it.
pub open spec fn ends_in_error(before: Seq<SessionEventV>, log: Seq<SessionEventV>, number: u32) -> bool {
    log == before.push(SessionEventV::TurnEnd { turn: number, reason: TurnEndReason::Error })
}

/// A reply that is broken off is kept as far as it has come, and marked as broken off.
pub proof fn law_what_has_come_is_kept(s: AgentV, c: LoopConfig, evs: Seq<StreamEventV>)
    requires
        s.phase == Phase::Streaming,
        s.step_content.len() == 0,
        s.step_calls.len() == 0,
        s.step_usage is None,
        forall|i: int| 0 <= i < evs.len() ==> !((#[trigger] evs[i]) is Finish),
    ensures
        ({
            let read = after(s, c, reads(evs));
            let t = turn::moved(read, c, TurnMove::Interrupted);
            let n = s.log.len() as int;
            &&& t.log.len() == n + 2
            &&& t.log.take(n) == s.log
            &&& t.log[n] matches SessionEventV::AssistantMessage {
                content,
                tool_calls,
                usage,
                interrupted,
            } && content == joined(evs.filter(is_text())) && are_its_calls(evs, tool_calls)
                && is_its_usage(evs, None, usage) && interrupted
            &&& t.log[n + 1] matches SessionEventV::TurnEnd { turn, reason } && turn == s.turn
                && reason == TurnEndReason::Aborted
            &&& t.phase == Phase::Idle
            &&& turn::outcome_of(read, c, TurnMove::Interrupted) matches Some(
                TurnOutcomeV::Cancelled { content, usage, turns_used },
            ) && content == s.content + joined(evs.filter(is_text())) && is_its_usage(
                evs,
                s.usage,
                usage,
            ) && turns_used == s.steps
        }),
{
    law_a_step_has_what_came(s, c, evs);
    let t = turn::moved(after(s, c, reads(evs)), c, TurnMove::Interrupted);
    assert(t.log.take(s.log.len() as int) =~= s.log);
}

} // verus!
