//! What is heard of a streamed reply, said of the pieces that come in.

use crate::agent::sse;
use crate::agent::sse::{CallDeltaV, ChoiceV, DeltaV, PartialV, SseV};
use crate::agent::types::{FinishReasonV, StreamEventV};
use vstd::prelude::*;

verus! {

// ---- Frames

/// Whether an empty line stands at the place: two line ends of one kind.
pub open spec fn is_gap(buf: Seq<u8>, i: int) -> bool {
    (0 <= i && i + 2 <= buf.len() && buf.subrange(i, i + 2) == seq![10u8, 10]) || (0 <= i && i + 4
        <= buf.len() && buf.subrange(i, i + 4) == seq![13u8, 10, 13, 10])
}

/// A frame ends at the first empty line, and has not ended where there is none.
pub proof fn law_a_frame_ends_at_the_first_gap(buf: Seq<u8>)
    ensures
        match sse::frame_end(buf) {
            Some(k) => is_gap(buf, k) && forall|j: int| 0 <= j < k ==> !#[trigger] is_gap(buf, j),
            None => forall|j: int| !#[trigger] is_gap(buf, j),
        },
{
    lemma_frame_end(buf, 0);
}

proof fn lemma_gap(buf: Seq<u8>, i: int)
    ensures
        is_gap(buf, i) <==> sse::delimiter_len(buf, i) > 0,
{
    if 0 <= i && i + 2 <= buf.len() {
        let two = buf.subrange(i, i + 2);
        assert(two[0] == buf[i] && two[1] == buf[i + 1]);
        if buf[i] == 10 && buf[i + 1] == 10 {
            assert(two =~= seq![10u8, 10]);
        }
    }
    if 0 <= i && i + 4 <= buf.len() {
        let four = buf.subrange(i, i + 4);
        assert(four[0] == buf[i] && four[1] == buf[i + 1] && four[2] == buf[i + 2] && four[3]
            == buf[i + 3]);
        if buf[i] == 13 && buf[i + 1] == 10 && buf[i + 2] == 13 && buf[i + 3] == 10 {
            assert(four =~= seq![13u8, 10, 13, 10]);
        }
    }
}

proof fn lemma_frame_end(buf: Seq<u8>, i: int)
    requires
        0 <= i,
    ensures
        match sse::frame_end_from(buf, i) {
            Some(k) => i <= k && is_gap(buf, k) && forall|j: int|
                i <= j < k ==> !#[trigger] is_gap(buf, j),
            None => forall|j: int| i <= j ==> !#[trigger] is_gap(buf, j),
        },
    decreases buf.len() - i,
{
    lemma_gap(buf, i);
    if i < buf.len() && sse::delimiter_len(buf, i) == 0 {
        lemma_frame_end(buf, i + 1);
    }
}

// ---- Calls

/// The pieces that are of the call numbered `i`.
pub open spec fn is_of(i: int) -> spec_fn(CallDeltaV) -> bool {
    |d: CallDeltaV| d.index == i
}

/// The names, or the arguments, of pieces one behind the other.
pub open spec fn glued(ds: Seq<CallDeltaV>, names: bool) -> Seq<char>
    decreases ds.len(),
{
    if ds.len() == 0 {
        Seq::empty()
    } else {
        let o = if names {
            ds.last().name
        } else {
            ds.last().arguments
        };
        glued(ds.drop_last(), names) + (match o {
            Some(t) => t,
            None => Seq::empty(),
        })
    }
}

pub open spec fn has_id() -> spec_fn(CallDeltaV) -> bool {
    |d: CallDeltaV| d.id matches Some(t) && t.len() > 0
}

/// Whether a slot holds what the pieces of its call say: their names and their arguments one
/// behind the other, and the last id that one of them gives.
pub open spec fn is_put_together(own: Seq<CallDeltaV>, p: PartialV) -> bool {
    &&& p.name == glued(own, true)
    &&& p.arguments == glued(own, false)
    &&& if own.filter(has_id()).len() == 0 {
        p.id is None
    } else {
        p.id == own.filter(has_id()).last().id
    }
}

/// Calls are put together from their pieces by their numbers, whichever way the pieces of
/// several calls are mixed.
pub proof fn law_calls_are_put_together(ds: Seq<CallDeltaV>, n: int, i: int)
    requires
        0 <= n <= ds.len(),
        0 <= i,
    ensures
        ({
            let calls = sse::with_calls(Seq::empty(), ds, n);
            let own = ds.take(n).filter(is_of(i));
            if i < calls.len() {
                is_put_together(own, calls[i])
            } else {
                own.len() == 0
            }
        }),
    decreases n,
{
    reveal(Seq::filter);
    let calls = sse::with_calls(Seq::empty(), ds, n);
    let own = ds.take(n).filter(is_of(i));
    if n > 0 {
        law_calls_are_put_together(ds, n - 1, i);
        let before = sse::with_calls(Seq::empty(), ds, n - 1);
        let d = ds[n - 1];
        let was = ds.take(n - 1).filter(is_of(i));
        assert(ds.take(n).drop_last() =~= ds.take(n - 1));
        assert(ds.take(n).last() == d);
        let slots = sse::padded(before, d.index as nat);
        let slot = if i < before.len() {
            before[i]
        } else {
            sse::empty_partial()
        };
        if i >= before.len() {
            assert(was.len() == 0);
            assert(glued(was, true) =~= Seq::empty());
            assert(glued(was, false) =~= Seq::empty());
            assert(was.filter(has_id()).len() == 0);
        }
        assert(is_put_together(was, slot));
        if i < slots.len() {
            assert(slots[i] == slot);
        }
        if d.index == i {
            assert(own == was.push(d));
            assert(own.drop_last() =~= was);
            assert(own.last() == d);
            assert(calls[i] == sse::extended(slot, d));
            assert(own.filter(has_id()) == if has_id()(d) {
                was.filter(has_id()).push(d)
            } else {
                was.filter(has_id())
            });
        } else {
            assert(own == was);
        }
    }
}

/// Whether events are the calls that have an id, each with its number, name and arguments, in
/// the order of their numbers; `at` tells which call each is.
pub open spec fn are_whole(
    calls: Seq<PartialV>,
    n: int,
    evs: Seq<StreamEventV>,
    at: Seq<int>,
) -> bool {
    &&& at.len() == evs.len()
    &&& forall|k: int|
        0 <= k < at.len() ==> 0 <= #[trigger] at[k] < n && (
        evs[k] matches StreamEventV::ToolCall { index, call } && index == at[k] && Some(call.id)
            == calls[at[k]].id && call.name == calls[at[k]].name && call.arguments
            == calls[at[k]].arguments)
    &&& forall|j: int, k: int| 0 <= j < k < at.len() ==> #[trigger] at[j] < #[trigger] at[k]
    &&& forall|i: int| 0 <= i < n && (#[trigger] calls[i]).id is Some ==> at.contains(i)
}

/// Every call that has an id is told, once and as it was put together.
pub proof fn law_whole_calls_are_told(calls: Seq<PartialV>, n: int)
    requires
        0 <= n <= calls.len(),
        calls.len() <= usize::MAX,
    ensures
        exists|at: Seq<int>| #[trigger] are_whole(calls, n, sse::whole_calls(calls, n), at),
    decreases n,
{
    let evs = sse::whole_calls(calls, n);
    if n == 0 {
        assert(are_whole(calls, n, evs, Seq::empty()));
    } else {
        law_whole_calls_are_told(calls, n - 1);
        let before = sse::whole_calls(calls, n - 1);
        let at = choose|at: Seq<int>| #[trigger] are_whole(calls, n - 1, before, at);
        if calls[n - 1].id is Some {
            let more = at.push(n - 1);
            assert forall|k: int| 0 <= k < more.len() implies 0 <= #[trigger] more[k] < n && (
            evs[k] matches StreamEventV::ToolCall { index, call } && index == more[k] && Some(
                call.id,
            ) == calls[more[k]].id && call.name == calls[more[k]].name && call.arguments
                == calls[more[k]].arguments) by {
                if k < at.len() {
                    assert(more[k] == at[k]);
                    assert(evs[k] == before[k]);
                }
            }
            assert forall|i: int| 0 <= i < n && (
            #[trigger] calls[i]).id is Some implies more.contains(i) by {
                if i < n - 1 {
                    assert(at.contains(i));
                    let x = choose|x: int| 0 <= x < at.len() && at[x] == i;
                    assert(more[x] == i);
                } else {
                    assert(more[at.len() as int] == i);
                }
            }
            assert(are_whole(calls, n, evs, more));
        } else {
            assert(are_whole(calls, n, evs, at));
        }
    }
}

// ---- Text

/// While the reply has not ended, each text that a piece brings is passed on as it is, the
/// text of the reply before what the model thinks, and nothing else is said.
pub proof fn law_what_is_said_is_passed_on(s: SseV, d: DeltaV)
    requires
        !s.finish_seen,
    ensures
        ({
            let t = sse::with_choice(s, ChoiceV { finish_reason: None, delta: Some(d) });
            let said = match d.content {
                Some(x) => if x.len() > 0 {
                    seq![StreamEventV::TextDelta(x)]
                } else {
                    Seq::empty()
                },
                None => Seq::empty(),
            };
            let thought = match d.reasoning {
                Some(x) => if x.len() > 0 {
                    seq![StreamEventV::ReasoningDelta(x)]
                } else {
                    Seq::empty()
                },
                None => Seq::empty(),
            };
            &&& t.pending == s.pending + said + thought
            &&& !t.finish_seen
        }),
{
    let t = sse::with_choice(s, ChoiceV { finish_reason: None, delta: Some(d) });
    let said = match d.content {
        Some(x) => if x.len() > 0 {
            seq![StreamEventV::TextDelta(x)]
        } else {
            Seq::empty()
        },
        None => Seq::empty(),
    };
    let thought = match d.reasoning {
        Some(x) => if x.len() > 0 {
            seq![StreamEventV::ReasoningDelta(x)]
        } else {
            Seq::empty()
        },
        None => Seq::empty(),
    };
    assert(t.pending =~= s.pending + said + thought);
}

/// The reason for which a reply ends is told once and last: the whole calls come before it
/// where the model stops for them, and nothing that comes behind adds to what was told.
pub proof fn law_the_end_comes_last(s: SseV, c: ChoiceV)
    ensures
        s.finish_seen ==> sse::with_choice(s, c).pending == s.pending,
        !s.finish_seen && sse::with_choice(s, c).finish_seen ==> {
            let t = sse::with_choice(s, c);
            &&& t.pending.last() is Finish
            &&& t.pending.last() == StreamEventV::Finish(FinishReasonV::ToolCalls)
                ==> t.pending.drop_last() == s.pending + sse::whole_calls(
                s.calls,
                s.calls.len() as int,
            )
            &&& t.pending.last() != StreamEventV::Finish(FinishReasonV::ToolCalls)
                ==> t.pending.drop_last() == s.pending
        },
{
    let t = sse::with_choice(s, c);
    if !s.finish_seen && t.finish_seen {
        assert(t.pending.drop_last() =~= if t.pending.last() == StreamEventV::Finish(
            FinishReasonV::ToolCalls,
        ) {
            s.pending + sse::whole_calls(s.calls, s.calls.len() as int)
        } else {
            s.pending
        });
    }
}

} // verus!
