//! The turn as a whole: what holds of the moves of a turn from its first to its last.

use crate::agent::session;
use crate::agent::session::{SessionEventV, TurnEndReason};
use crate::agent::tool_calls::ToolExecution;
use crate::agent::turn;
use crate::agent::turn::{AgentV, LoopConfig, LoopEventV, Phase, TurnMove, TurnOutcomeV};
use crate::agent::types::{StreamEventV, ToolCallV};
use vstd::prelude::*;

verus! {

/// The moves lead a turn that began in `s0` with the message from state to state, and
/// the last of them, no other, ends it with the outcome.
pub open spec fn is_turn(
    s0: AgentV,
    input: Seq<char>,
    c: LoopConfig,
    moves: Seq<TurnMove>,
    states: Seq<AgentV>,
    o: TurnOutcomeV,
) -> bool {
    &&& moves.len() > 0
    &&& states.len() == moves.len() + 1
    &&& states[0] == turn::begun(s0, input)
    &&& forall|i: int|
        0 <= i < moves.len() ==> turn::takes(
            states[i],
            c,
            #[trigger] moves[i],
            states[i + 1],
            (if i == moves.len() - 1 {
                Some(o)
            } else {
                None
            }),
        )
}

/// Events were added to the log, none of them the end of a turn.
pub open spec fn only_adds(before: Seq<SessionEventV>, after: Seq<SessionEventV>) -> bool {
    &&& before.is_prefix_of(after)
    &&& forall|i: int| before.len() <= i < after.len() ==> !((#[trigger] after[i]) is TurnEnd)
}

/// No preparation of another try takes anything out of the session or ends a turn in it.
/// Where nothing is ever prepared, the session stays as it is.
pub open spec fn preparations_add(moves: Seq<TurnMove>, states: Seq<AgentV>) -> bool {
    forall|i: int|
        0 <= i < moves.len() ==> ((#[trigger] moves[i]) matches TurnMove::Prepared { log, .. }
            ==> only_adds(states[i].log, log))
}

/// What the first `n` moves report.
pub open spec fn all_told(moves: Seq<TurnMove>, n: int) -> Seq<LoopEventV>
    decreases n,
{
    if n <= 0 {
        Seq::empty()
    } else {
        all_told(moves, n - 1) + turn::told(moves[n - 1])
    }
}

/// The reported pieces of text, one behind the other.
pub open spec fn delta_text(events: Seq<LoopEventV>) -> Seq<char>
    decreases events.len(),
{
    if events.len() == 0 {
        Seq::empty()
    } else {
        match events.last() {
            LoopEventV::Delta(t) => delta_text(events.drop_last()) + t,
            _ => delta_text(events.drop_last()),
        }
    }
}

/// How many of the first `n` moves sent a request.
pub open spec fn requests(moves: Seq<TurnMove>, states: Seq<AgentV>, n: int) -> nat
    decreases n,
{
    if n <= 0 {
        0
    } else if moves[n - 1] is Step && states[n].phase == Phase::Requesting {
        requests(moves, states, n - 1) + 1
    } else {
        requests(moves, states, n - 1)
    }
}

/// The reason that the log gives for an outcome.
pub open spec fn reason_for(o: TurnOutcomeV) -> TurnEndReason {
    match o {
        TurnOutcomeV::Completed { .. } => TurnEndReason::Completed,
        TurnOutcomeV::Cancelled { .. } => TurnEndReason::Aborted,
        TurnOutcomeV::MaxTurns { .. } => TurnEndReason::MaxTokens,
        TurnOutcomeV::Failed { .. } => TurnEndReason::Error,
    }
}

proof fn lemma_adds_transitive(
    a: Seq<SessionEventV>,
    b: Seq<SessionEventV>,
    c: Seq<SessionEventV>,
)
    requires
        only_adds(a, b),
        only_adds(b, c),
    ensures
        only_adds(a, c),
{
    assert forall|i: int| 0 <= i < a.len() implies a[i] == c[i] by {
        assert(a[i] == b[i]);
    }
    assert(a =~= c.take(a.len() as int));
    assert forall|i: int| a.len() <= i < c.len() implies !((#[trigger] c[i]) is TurnEnd) by {
        if i < b.len() {
            assert(b[i] == c[i]);
        }
    }
}

proof fn lemma_push_adds(log: Seq<SessionEventV>, e: SessionEventV)
    requires
        !(e is TurnEnd),
    ensures
        only_adds(log, log.push(e)),
{
    assert(log =~= log.push(e).take(log.len() as int));
}

proof fn lemma_calls_add(log: Seq<SessionEventV>, calls: Seq<ToolCallV>, n: int)
    ensures
        only_adds(log, turn::with_calls_logged(log, calls, n)),
    decreases n,
{
    if n > 0 {
        lemma_calls_add(log, calls, n - 1);
        let before = turn::with_calls_logged(log, calls, n - 1);
        let after = turn::with_calls_logged(log, calls, n);
        lemma_push_adds(before, after.last());
        lemma_adds_transitive(log, before, after);
    }
}

proof fn lemma_results_add(log: Seq<SessionEventV>, runs: Seq<ToolExecution>, n: int)
    ensures
        only_adds(log, turn::with_results_logged(log, runs, n)),
    decreases n,
{
    if n > 0 {
        lemma_results_add(log, runs, n - 1);
        let before = turn::with_results_logged(log, runs, n - 1);
        let after = turn::with_results_logged(log, runs, n);
        lemma_push_adds(before, after.last());
        lemma_adds_transitive(log, before, after);
    }
}

proof fn lemma_delta_text_append(a: Seq<LoopEventV>, b: Seq<LoopEventV>)
    ensures
        delta_text(a + b) == delta_text(a) + delta_text(b),
    decreases b.len(),
{
    if b.len() == 0 {
        assert(a + b == a);
    } else {
        lemma_delta_text_append(a, b.drop_last());
        assert((a + b).drop_last() == a + b.drop_last());
        assert(delta_text(a + b) == delta_text(a) + delta_text(b));
    }
}

proof fn lemma_no_delta(events: Seq<LoopEventV>)
    requires
        forall|i: int| 0 <= i < events.len() ==> !((#[trigger] events[i]) is Delta),
    ensures
        delta_text(events) == Seq::<char>::empty(),
    decreases events.len(),
{
    if events.len() > 0 {
        lemma_no_delta(events.drop_last());
    }
}

/// What a move that does not end the turn does to the log, the text and the count.
proof fn lemma_move_goes_on(s: AgentV, c: LoopConfig, m: TurnMove, t: AgentV)
    requires
        turn::takes(s, c, m, t, None),
        m matches TurnMove::Prepared { log, .. } ==> only_adds(s.log, log),
        s.steps <= c.max_turns,
    ensures
        only_adds(s.log, t.log),
        t.turn == s.turn,
        t.content == s.content + delta_text(turn::told(m)),
        t.steps == s.steps + (if m is Step && t.phase == Phase::Requesting {
            1int
        } else {
            0int
        }),
        t.steps <= c.max_turns,
{
    let none = Seq::<char>::empty();
    assert(s.content + none == s.content);
    assert(only_adds(s.log, s.log));
    match m {
        TurnMove::Step { .. } => {
            lemma_push_adds(s.log, t.log.last());
        },
        TurnMove::Event(ev) => {
            match ev {
                StreamEventV::TextDelta(x) => {
                    let e = LoopEventV::Delta(x);
                    assert(turn::told(m) == seq![e]);
                    let one = turn::told(m);
                    assert(one.drop_last() == Seq::<LoopEventV>::empty());
                    assert(delta_text(one.drop_last()) == none);
                    assert(one.last() == e);
                    assert(delta_text(one) == none + x);
                    assert(none + x == x);
                },
                _ => {
                    lemma_no_delta(turn::told(m));
                },
            }
        },
        TurnMove::ReplyDone => {
            let r = turn::recorded(s, false);
            lemma_push_adds(s.log, r.log.last());
            lemma_calls_add(r.log, s.step_calls, s.step_calls.len() as int);
            lemma_adds_transitive(s.log, r.log, t.log);
        },
        TurnMove::ToolsDone(runs) => {
            lemma_results_add(s.log, runs, runs.len() as int);
            lemma_no_delta(turn::told(m));
        },
        _ => {},
    }
}

/// What the move that ends the turn does.
proof fn lemma_move_ends(s: AgentV, c: LoopConfig, m: TurnMove, t: AgentV, o: TurnOutcomeV)
    requires
        turn::takes(s, c, m, t, Some(o)),
        m matches TurnMove::Prepared { log, .. } ==> only_adds(s.log, log),
    ensures
        t.log.len() > 0,
        t.log.last() == (SessionEventV::TurnEnd { turn: s.turn, reason: reason_for(o) }),
        only_adds(s.log, t.log.drop_last()),
        o.text() == s.content,
        o.calls_made() == s.steps,
        delta_text(turn::told(m)) == Seq::<char>::empty(),
        !(m is Step && t.phase == Phase::Requesting),
{
    assert(only_adds(s.log, s.log));
    match m {
        TurnMove::Interrupted => {
            let r = turn::recorded(s, true);
            lemma_push_adds(s.log, r.log.last());
            assert(t.log.drop_last() == r.log);
        },
        TurnMove::ReplyDone => {
            let r = turn::recorded(s, false);
            lemma_push_adds(s.log, r.log.last());
            assert(t.log.drop_last() == r.log);
        },
        TurnMove::Prepared { log, .. } => {
            assert(t.log.drop_last() == log);
        },
        _ => {
            assert(t.log.drop_last() == s.log);
        },
    }
}

/// How the turn stands behind its first `n` moves.
proof fn lemma_on_its_way(
    s0: AgentV,
    input: Seq<char>,
    c: LoopConfig,
    moves: Seq<TurnMove>,
    states: Seq<AgentV>,
    o: TurnOutcomeV,
    n: int,
)
    requires
        is_turn(s0, input, c, moves, states, o),
        preparations_add(moves, states),
        0 <= n < moves.len(),
    ensures
        ({
            let number = (session::turns_begun(s0.log) + 1) as u32;
            let s = states[n];
            &&& only_adds(s0.log.push(SessionEventV::TurnStart { turn: number }), s.log)
            &&& s.turn == number
            &&& s.content == delta_text(all_told(moves, n))
            &&& s.steps == requests(moves, states, n)
            &&& s.steps <= c.max_turns
        }),
    decreases n,
{
    let number = (session::turns_begun(s0.log) + 1) as u32;
    let first = s0.log.push(SessionEventV::TurnStart { turn: number });
    if n == 0 {
        assert(only_adds(first, first));
        if input.len() > 0 {
            lemma_push_adds(first, states[0].log.last());
        }
    } else {
        lemma_on_its_way(s0, input, c, moves, states, o, n - 1);
        let m = moves[n - 1];
        lemma_move_goes_on(states[n - 1], c, m, states[n]);
        lemma_adds_transitive(first, states[n - 1].log, states[n].log);
        lemma_delta_text_append(all_told(moves, n - 1), turn::told(m));
    }
}

/// A turn adds its start first and its end last, with nothing taken out of the log and no
/// other end in between; the reason that the log gives goes with the outcome; the text of
/// the outcome is the reported pieces of text, one behind the other; and the outcome
/// counts the requests that were sent, of which there are no more than the budget allows.
pub proof fn law_a_turn_is_whole(
    s0: AgentV,
    input: Seq<char>,
    c: LoopConfig,
    moves: Seq<TurnMove>,
    states: Seq<AgentV>,
    o: TurnOutcomeV,
)
    requires
        session::turns_begun(s0.log) < u32::MAX,
        is_turn(s0, input, c, moves, states, o),
        preparations_add(moves, states),
    ensures
        ({
            let number = session::turns_begun(s0.log) + 1;
            let log = states.last().log;
            let from = s0.log.len() as int;
            &&& s0.log.is_prefix_of(log)
            &&& log.len() >= from + 2
            &&& log[from] matches SessionEventV::TurnStart { turn } && turn == number
            &&& log.last() matches SessionEventV::TurnEnd { turn, reason } && turn == number
                && reason == reason_for(o)
            &&& forall|i: int|
                from <= i < log.len() - 1 ==> !((#[trigger] log[i]) is TurnEnd)
            &&& o.text() == delta_text(all_told(moves, moves.len() as int))
            &&& o.calls_made() == requests(moves, states, moves.len() as int)
            &&& o.calls_made() <= c.max_turns
        }),
{
    let number = (session::turns_begun(s0.log) + 1) as u32;
    let first = s0.log.push(SessionEventV::TurnStart { turn: number });
    let n = moves.len() - 1;
    lemma_on_its_way(s0, input, c, moves, states, o, n);
    let m = moves[n];
    lemma_move_ends(states[n], c, m, states[n + 1], o);
    let log = states[n + 1].log;
    let body = log.drop_last();
    lemma_adds_transitive(first, states[n].log, body);
    lemma_delta_text_append(all_told(moves, n), turn::told(m));
    assert(delta_text(all_told(moves, n)) + Seq::<char>::empty() == delta_text(
        all_told(moves, n),
    ));
    assert forall|i: int| 0 <= i < first.len() implies log[i] == first[i] by {
        assert(body[i] == first[i]);
    }
    assert(s0.log =~= log.take(s0.log.len() as int));
    assert(first[s0.log.len() as int] == log[s0.log.len() as int]);
    assert forall|i: int| s0.log.len() <= i < log.len() - 1 implies !((#[trigger] log[i])
        is TurnEnd) by {
        assert(body[i] == log[i]);
    }
}

} // verus!
