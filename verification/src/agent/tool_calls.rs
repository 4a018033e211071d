//! The scheduling of a batch of tool calls.
//!
//! A call that a hook refuses is answered at once. The others run in windows, one window
//! behind the other: calls of tools that may run beside others share windows of bounded
//! size, every other call has a window of its own. The results come in model order.

use crate::agent::hooks::ToolDecision;
use crate::agent::tool;
use crate::agent::tool::{HashMapToolRegistry, ToolError, ToolResult, ToolResultV, ToolSpec};
use crate::agent::types;
use crate::agent::types::{ToolCall, ToolCallV};
use crate::text;
use vstd::prelude::*;

verus! {

/// How many calls run side by side where nothing else is asked for.
pub const DEFAULT_MAX_PARALLEL: usize = 4;

/// How many characters of a value a preview shows.
pub const PREVIEW_CHARS: usize = 120;

/// A tool call and its result.
#[derive(Debug, PartialEq, Eq)]
pub struct ToolExecution {
    pub call: ToolCall,
    pub result: ToolResult,
}

pub struct ToolExecutionV {
    pub call: ToolCallV,
    pub result: ToolResultV,
}

impl View for ToolExecution {
    type V = ToolExecutionV;

    open spec fn view(&self) -> ToolExecutionV {
        ToolExecutionV { call: self.call@, result: self.result@ }
    }
}

impl Clone for ToolExecution {
    fn clone(&self) -> (r: Self)
        ensures
            r == *self,
    {
        ToolExecution { call: self.call.clone(), result: self.result.clone() }
    }
}

/// What a tool returned: a text, or another JSON value in its JSON text.
#[derive(Debug, PartialEq, Eq)]
pub enum ToolValue {
    Text(String),
    Json(String),
}

impl ToolValue {
    pub open spec fn content(self) -> Seq<char> {
        match self {
            ToolValue::Text(s) => s@,
            ToolValue::Json(s) => s@,
        }
    }
}

/// What the model is shown of a value.
pub fn value_to_content(v: &ToolValue) -> (r: String)
    ensures
        r@ == v.content(),
{
    match v {
        ToolValue::Text(s) => s.clone(),
        ToolValue::Json(s) => s.clone(),
    }
}

/// The start of a value, for display.
pub fn preview(v: &ToolValue) -> (r: String)
    ensures
        r@ == text::ellipsized(v.content(), PREVIEW_CHARS as nat),
{
    let s = value_to_content(v);
    text::ellipsize(&s, PREVIEW_CHARS)
}

/// The answer to a call that a hook refuses.
pub open spec fn refused(call: ToolCallV, reason: Seq<char>) -> ToolExecutionV {
    ToolExecutionV {
        call,
        result: ToolResultV { call_id: call.id, content: "（被拦截）"@ + reason, is_error: true },
    }
}

/// The answer to a call that ran.
pub open spec fn answered(call: ToolCallV, outcome: Result<ToolValue, ToolError>) -> ToolExecutionV {
    ToolExecutionV {
        call,
        result: match outcome {
            Ok(v) => ToolResultV { call_id: call.id, content: v.content(), is_error: false },
            Err(e) => ToolResultV { call_id: call.id, content: e.message(), is_error: true },
        },
    }
}

/// The record of a call that ran, or that could not.
pub fn record_outcome(call: ToolCall, outcome: Result<ToolValue, ToolError>) -> (r: ToolExecution)
    ensures
        r@ == answered(call@, outcome),
        r.call == call,
        r.result.call_id@ == call.id@,
        r.result.is_error <==> outcome is Err,
        outcome matches Ok(ToolValue::Text(s)) ==> r.result.content@ == s@,
        outcome matches Ok(ToolValue::Json(s)) ==> r.result.content@ == s@,
        outcome matches Err(e) ==> r.result.content@ == e.message(),
{
    let call_id = call.id.clone();
    let result = match &outcome {
        Ok(v) => ToolResult { call_id, content: value_to_content(v), is_error: false },
        Err(e) => ToolResult { call_id, content: e.text(), is_error: true },
    };
    ToolExecution { call, result }
}

/// The record of a call of a tool that is not known.
pub fn record_missing(call: ToolCall) -> (r: ToolExecution)
    ensures
        r@ == answered(call@, Err(ToolError::NotFound(call.name))),
        r.call == call,
{
    let name = call.name.clone();
    record_outcome(call, Err(ToolError::NotFound(name)))
}

/// The indices below `n` of the calls that may run.
pub open spec fn runnable(decisions: Seq<ToolDecision>, n: int) -> Seq<int>
    decreases n,
{
    if n <= 0 {
        Seq::empty()
    } else {
        let before = runnable(decisions, n - 1);
        if decisions[n - 1] is Run {
            before.push(n - 1)
        } else {
            before
        }
    }
}

/// The calls in groups: a call joins the group before it where both may run beside
/// others, else it opens a group.
pub open spec fn grouped(indices: Seq<int>, safe: Seq<bool>) -> Seq<Seq<int>>
    decreases indices.len(),
{
    if indices.len() == 0 {
        Seq::empty()
    } else {
        let before = grouped(indices.drop_last(), safe);
        let i = indices.last();
        if before.len() > 0 && safe[i] && safe[before.last()[0]] {
            before.drop_last().push(before.last().push(i))
        } else {
            before.push(seq![i])
        }
    }
}

/// A group cut into windows of at most `size` calls.
pub open spec fn windows_of(group: Seq<int>, size: int) -> Seq<Seq<int>>
    decreases group.len(),
{
    if size <= 0 || group.len() == 0 {
        Seq::empty()
    } else if group.len() <= size {
        seq![group]
    } else {
        seq![group.take(size)] + windows_of(group.skip(size), size)
    }
}

/// The windows of all groups, one behind the other.
pub open spec fn windows_of_all(groups: Seq<Seq<int>>, size: int) -> Seq<Seq<int>>
    decreases groups.len(),
{
    if groups.len() == 0 {
        Seq::empty()
    } else {
        windows_of_all(groups.drop_last(), size) + windows_of(groups.last(), size)
    }
}

/// How many calls a window holds at most: at least one.
pub open spec fn window_size(max_parallel: int) -> int {
    if max_parallel < 1 {
        1
    } else {
        max_parallel
    }
}

/// The windows in which the calls run.
pub open spec fn schedule(
    decisions: Seq<ToolDecision>,
    safe: Seq<bool>,
    max_parallel: int,
) -> Seq<Seq<int>> {
    windows_of_all(
        grouped(runnable(decisions, decisions.len() as int), safe),
        window_size(max_parallel),
    )
}

pub open spec fn flat(ws: Seq<Seq<int>>) -> Seq<int>
    decreases ws.len(),
{
    if ws.len() == 0 {
        Seq::empty()
    } else {
        flat(ws.drop_last()) + ws.last()
    }
}

proof fn lemma_flat_push(ws: Seq<Seq<int>>, w: Seq<int>)
    ensures
        flat(ws.push(w)) == flat(ws) + w,
{
    assert(ws.push(w).drop_last() == ws);
}

proof fn lemma_flat_append(a: Seq<Seq<int>>, b: Seq<Seq<int>>)
    ensures
        flat(a + b) == flat(a) + flat(b),
    decreases b.len(),
{
    if b.len() == 0 {
        assert(a + b == a);
    } else {
        lemma_flat_append(a, b.drop_last());
        assert((a + b).drop_last() == a + b.drop_last());
        assert((a + b).last() == b.last());
        assert(flat(a) + flat(b.drop_last()) + b.last() == flat(a) + flat(b));
    }
}

proof fn lemma_grouped(indices: Seq<int>, safe: Seq<bool>)
    ensures
        flat(grouped(indices, safe)) == indices,
        forall|g: int|
            0 <= g < grouped(indices, safe).len() ==> (#[trigger] grouped(indices, safe)[g]).len()
                > 0,
        forall|g: int|
            0 <= g < grouped(indices, safe).len() ==> group_is_safe(
                #[trigger] grouped(indices, safe)[g],
                safe,
            ),
    decreases indices.len(),
{
    if indices.len() > 0 {
        lemma_grouped(indices.drop_last(), safe);
        let before = grouped(indices.drop_last(), safe);
        let i = indices.last();
        if before.len() > 0 && safe[i] && safe[before.last()[0]] {
            let grown = before.last().push(i);
            lemma_flat_push(before.drop_last(), grown);
            assert(flat(before) == flat(before.drop_last()) + before.last());
            assert(flat(before.drop_last()) + grown == flat(before).push(i));
            assert(group_is_safe(before.last(), safe));
            assert(grown[0] == before.last()[0]);
            assert(group_is_safe(grown, safe)) by {
                assert forall|k: int| 0 <= k < grown.len() implies safe[#[trigger] grown[k]] by {
                    if k < before.last().len() {
                        if before.last().len() > 1 {
                            assert(safe[before.last()[k]]);
                        } else {
                            assert(k == 0);
                        }
                        assert(grown[k] == before.last()[k]);
                    }
                }
            }
        } else {
            lemma_flat_push(before, seq![i]);
        }
        assert(indices.drop_last().push(i) == indices);
        assert(flat(grouped(indices, safe)) == indices);
    }
}

/// More than one call only where all of them may run beside others.
pub open spec fn group_is_safe(w: Seq<int>, safe: Seq<bool>) -> bool {
    w.len() > 1 ==> forall|k: int| 0 <= k < w.len() ==> safe[#[trigger] w[k]]
}

pub open spec fn window_ok(w: Seq<int>, safe: Seq<bool>, size: int) -> bool {
    0 < w.len() <= size && group_is_safe(w, safe)
}

proof fn lemma_windows_of(group: Seq<int>, safe: Seq<bool>, size: int)
    requires
        size >= 1,
        group_is_safe(group, safe),
    ensures
        flat(windows_of(group, size)) == group,
        forall|k: int|
            0 <= k < windows_of(group, size).len() ==> window_ok(
                #[trigger] windows_of(group, size)[k],
                safe,
                size,
            ),
    decreases group.len(),
{
    let ws = windows_of(group, size);
    if group.len() == 0 {
    } else if group.len() <= size {
        lemma_flat_push(Seq::empty(), group);
        assert(Seq::<Seq<int>>::empty().push(group) == seq![group]);
        assert(flat(ws) == group);
    } else {
        let head = group.take(size);
        let rest = group.skip(size);
        assert(group_is_safe(rest, safe)) by {
            assert forall|k: int| rest.len() > 1 && 0 <= k < rest.len() implies safe[
            #[trigger] rest[k]] by {
                assert(rest[k] == group[k + size]);
            }
        }
        assert(group_is_safe(head, safe)) by {
            assert forall|k: int| head.len() > 1 && 0 <= k < head.len() implies safe[
            #[trigger] head[k]] by {
                assert(head[k] == group[k]);
            }
        }
        lemma_windows_of(rest, safe, size);
        lemma_flat_append(seq![head], windows_of(rest, size));
        lemma_flat_push(Seq::empty(), head);
        assert(Seq::<Seq<int>>::empty().push(head) == seq![head]);
        assert(flat(seq![head]) == head);
        assert(head + rest == group);
        assert forall|k: int| 0 <= k < ws.len() implies window_ok(
            #[trigger] ws[k],
            safe,
            size,
        ) by {
            if k > 0 {
                assert(ws[k] == windows_of(rest, size)[k - 1]);
            }
        }
    }
}

proof fn lemma_windows_of_all(groups: Seq<Seq<int>>, safe: Seq<bool>, size: int)
    requires
        size >= 1,
        forall|g: int| 0 <= g < groups.len() ==> group_is_safe(#[trigger] groups[g], safe),
    ensures
        flat(windows_of_all(groups, size)) == flat(groups),
        forall|k: int|
            0 <= k < windows_of_all(groups, size).len() ==> window_ok(
                #[trigger] windows_of_all(groups, size)[k],
                safe,
                size,
            ),
    decreases groups.len(),
{
    if groups.len() > 0 {
        let before = windows_of_all(groups.drop_last(), size);
        let last = windows_of(groups.last(), size);
        lemma_windows_of_all(groups.drop_last(), safe, size);
        lemma_windows_of(groups.last(), safe, size);
        lemma_flat_append(before, last);
        assert forall|k: int| 0 <= k < (before + last).len() implies window_ok(
            #[trigger] (before + last)[k],
            safe,
            size,
        ) by {
            if k >= before.len() {
                assert((before + last)[k] == last[k - before.len()]);
            }
        }
    }
}

/// Every call that may run runs exactly once, and the windows take the calls in model
/// order.
pub proof fn law_each_call_runs_once_in_order(
    decisions: Seq<ToolDecision>,
    safe: Seq<bool>,
    max_parallel: int,
)
    ensures
        flat(schedule(decisions, safe, max_parallel)) == runnable(
            decisions,
            decisions.len() as int,
        ),
{
    let indices = runnable(decisions, decisions.len() as int);
    lemma_grouped(indices, safe);
    lemma_windows_of_all(grouped(indices, safe), safe, window_size(max_parallel));
}

/// No window holds more calls than allowed, and calls share a window only where every
/// one of them may run beside others.
pub proof fn law_windows_are_bounded_and_safe(
    decisions: Seq<ToolDecision>,
    safe: Seq<bool>,
    max_parallel: int,
    k: int,
)
    requires
        0 <= k < schedule(decisions, safe, max_parallel).len(),
    ensures
        window_ok(
            schedule(decisions, safe, max_parallel)[k],
            safe,
            window_size(max_parallel),
        ),
{
    let indices = runnable(decisions, decisions.len() as int);
    lemma_grouped(indices, safe);
    lemma_windows_of_all(grouped(indices, safe), safe, window_size(max_parallel));
}

proof fn lemma_groups_apart(indices: Seq<int>, safe: Seq<bool>)
    ensures
        forall|j: int|
            0 <= j < grouped(indices, safe).len() ==> (#[trigger] grouped(indices, safe)[j]).len()
                > 0,
        forall|j: int|
            #![trigger grouped(indices, safe)[j]]
            0 <= j < grouped(indices, safe).len() - 1 ==> !(safe[grouped(indices, safe)[j][0]]
                && safe[grouped(indices, safe)[j + 1][0]]),
    decreases indices.len(),
{
    if indices.len() > 0 {
        lemma_groups_apart(indices.drop_last(), safe);
        let before = grouped(indices.drop_last(), safe);
        let all = grouped(indices, safe);
        assert forall|j: int| 0 <= j < all.len() implies (#[trigger] all[j]).len() > 0 by {
            if j < before.len() {
                assert(before[j].len() > 0);
            }
        }
        assert forall|j: int| #![trigger all[j]] 0 <= j < all.len() - 1 implies !(safe[all[j][0]]
            && safe[all[j + 1][0]]) by {
            assert(before[j].len() > 0);
            if j + 1 < before.len() {
                assert(before[j + 1].len() > 0);
                assert(all[j + 1][0] == before[j + 1][0]);
            }
            assert(all[j][0] == before[j][0]);
        }
    }
}

/// Whether two windows that follow each other are two for a reason: the first is full, or the
/// calls of one of them may not run beside others.
pub open spec fn are_two(a: Seq<int>, b: Seq<int>, safe: Seq<bool>, size: int) -> bool {
    a.len() == size || !(safe[a[0]] && safe[b[0]])
}

pub open spec fn each_for_a_reason(ws: Seq<Seq<int>>, safe: Seq<bool>, size: int) -> bool {
    forall|k: int|
        #![trigger ws[k]]
        0 <= k < ws.len() - 1 ==> are_two(ws[k], ws[k + 1], safe, size)
}

/// The windows of a group: as safe as the group, and full but for the last.
proof fn lemma_windows_full(group: Seq<int>, safe: Seq<bool>, size: int)
    requires
        size >= 1,
        group.len() > 0,
        group_is_safe(group, safe),
    ensures
        windows_of(group, size).len() > 0,
        forall|k: int|
            0 <= k < windows_of(group, size).len() ==> (#[trigger] windows_of(group, size)[k]).len()
                > 0 && safe[windows_of(group, size)[k][0]] == safe[group[0]],
        each_for_a_reason(windows_of(group, size), safe, size),
    decreases group.len(),
{
    if group.len() > size {
        let rest = group.skip(size);
        assert forall|k: int| rest.len() > 1 && 0 <= k < rest.len() implies safe[
        #[trigger] rest[k]] by {
            assert(rest[k] == group[size + k]);
        }
        lemma_windows_full(rest, safe, size);
        let tail = windows_of(rest, size);
        let all = windows_of(group, size);
        assert(safe[group[0]] && safe[group[size]]);
        assert(rest[0] == group[size]);
        assert forall|k: int| 0 <= k < all.len() implies (#[trigger] all[k]).len() > 0
            && safe[all[k][0]] == safe[group[0]] by {
            if k > 0 {
                assert(all[k] == tail[k - 1]);
            } else {
                assert(all[0][0] == group[0]);
            }
        }
        assert forall|k: int| #![trigger all[k]] 0 <= k < all.len() - 1 implies are_two(
            all[k],
            all[k + 1],
            safe,
            size,
        ) by {
            if k > 0 {
                assert(all[k] == tail[k - 1]);
                assert(all[k + 1] == tail[k]);
            }
        }
    }
}

proof fn lemma_all_full(groups: Seq<Seq<int>>, safe: Seq<bool>, size: int)
    requires
        size >= 1,
        forall|j: int|
            0 <= j < groups.len() ==> (#[trigger] groups[j]).len() > 0 && group_is_safe(
                groups[j],
                safe,
            ),
        forall|j: int|
            #![trigger groups[j]]
            0 <= j < groups.len() - 1 ==> !(safe[groups[j][0]] && safe[groups[j + 1][0]]),
    ensures
        each_for_a_reason(windows_of_all(groups, size), safe, size),
        groups.len() > 0 ==> windows_of_all(groups, size).len() > 0 && windows_of_all(
            groups,
            size,
        ).last().len() > 0 && safe[windows_of_all(groups, size).last()[0]] == safe[groups.last()[0]],
    decreases groups.len(),
{
    if groups.len() > 0 {
        let init = groups.drop_last();
        let g = groups.last();
        assert forall|j: int| 0 <= j < init.len() implies (#[trigger] init[j]).len() > 0
            && group_is_safe(init[j], safe) by {
            assert(init[j] == groups[j]);
        }
        assert forall|j: int| #![trigger init[j]] 0 <= j < init.len() - 1 implies !(
        safe[init[j][0]] && safe[init[j + 1][0]]) by {
            assert(init[j] == groups[j] && init[j + 1] == groups[j + 1]);
        }
        lemma_all_full(init, safe, size);
        let before = windows_of_all(init, size);
        let own = windows_of(g, size);
        let all = windows_of_all(groups, size);
        assert(g == groups[groups.len() - 1]);
        lemma_windows_full(g, safe, size);
        assert(all.last() == own[own.len() - 1]);
        assert forall|k: int| #![trigger all[k]] 0 <= k < all.len() - 1 implies are_two(
            all[k],
            all[k + 1],
            safe,
            size,
        ) by {
            if k + 1 < before.len() {
                assert(all[k] == before[k] && all[k + 1] == before[k + 1]);
            } else if k >= before.len() {
                assert(all[k] == own[k - before.len()]);
                assert(all[k + 1] == own[k + 1 - before.len()]);
            } else {
                assert(all[k] == before.last());
                assert(all[k + 1] == own[0]);
                assert(init.len() > 0);
                assert(groups[groups.len() - 2] == init.last());
                assert(!(safe[groups[groups.len() - 2][0]] && safe[groups[groups.len() - 1][0]]));
            }
        }
    }
}

/// Calls run beside each other wherever they may: a window ends only where it is full, or
/// where a call stands that may not run beside others.
pub proof fn law_windows_end_for_a_reason(
    decisions: Seq<ToolDecision>,
    safe: Seq<bool>,
    max_parallel: int,
)
    ensures
        each_for_a_reason(
            schedule(decisions, safe, max_parallel),
            safe,
            if max_parallel < 1 {
                1
            } else {
                max_parallel
            },
        ),
{
    let indices = runnable(decisions, decisions.len() as int);
    lemma_grouped(indices, safe);
    lemma_groups_apart(indices, safe);
    lemma_all_full(grouped(indices, safe), safe, window_size(max_parallel));
}

proof fn lemma_flat_bound(ws: Seq<Seq<int>>, n: int)
    requires
        forall|x: int| 0 <= x < flat(ws).len() ==> 0 <= #[trigger] flat(ws)[x] < n,
    ensures
        forall|k: int, j: int|
            0 <= k < ws.len() && 0 <= j < ws[k].len() ==> 0 <= (#[trigger] ws[k][j]) < n,
    decreases ws.len(),
{
    if ws.len() > 0 {
        let before = flat(ws.drop_last());
        assert forall|x: int| 0 <= x < before.len() implies 0 <= #[trigger] before[x] < n by {
            assert(flat(ws)[x] == before[x]);
        }
        lemma_flat_bound(ws.drop_last(), n);
        assert forall|k: int, j: int| 0 <= k < ws.len() && 0 <= j < ws[k].len() implies 0 <= (
        #[trigger] ws[k][j]) < n by {
            if k == ws.len() - 1 {
                assert(flat(ws)[before.len() + j] == ws[k][j]);
            } else {
                assert(ws.drop_last()[k][j] == ws[k][j]);
            }
        }
    }
}

proof fn lemma_runnable_bound(decisions: Seq<ToolDecision>, n: int)
    ensures
        forall|x: int|
            0 <= x < runnable(decisions, n).len() ==> 0 <= #[trigger] runnable(decisions, n)[x] < n,
    decreases n,
{
    if n > 0 {
        lemma_runnable_bound(decisions, n - 1);
        let before = runnable(decisions, n - 1);
        let all = runnable(decisions, n);
        assert forall|x: int| 0 <= x < all.len() implies 0 <= #[trigger] all[x] < n by {
            if x < before.len() {
                assert(all[x] == before[x]);
            }
        }
    }
}

pub open spec fn ints(v: Seq<usize>) -> Seq<int> {
    Seq::new(v.len(), |i: int| v[i] as int)
}

pub open spec fn int_rows(v: Seq<Vec<usize>>) -> Seq<Seq<int>> {
    Seq::new(v.len(), |i: int| ints(v[i]@))
}

fn runnable_of(decisions: &Vec<ToolDecision>) -> (r: Vec<usize>)
    ensures
        ints(r@) == runnable(decisions@, decisions@.len() as int),
        forall|k: int| 0 <= k < r@.len() ==> (#[trigger] r@[k]) < decisions@.len(),
{
    let mut r: Vec<usize> = Vec::new();
    let mut i: usize = 0;
    while i < decisions.len()
        invariant
            i <= decisions.len(),
            ints(r@) == runnable(decisions@, i as int),
            forall|k: int| 0 <= k < r@.len() ==> (#[trigger] r@[k]) < decisions@.len(),
        decreases decisions.len() - i,
    {
        let ghost before = r@;
        if let ToolDecision::Run = &decisions[i] {
            r.push(i);
            assert(ints(r@) =~= ints(before).push(i as int));
        }
        i += 1;
    }
    r
}

fn grouped_of(indices: &Vec<usize>, safe: &Vec<bool>) -> (r: Vec<Vec<usize>>)
    requires
        forall|k: int| 0 <= k < indices@.len() ==> (#[trigger] indices@[k]) < safe@.len(),
    ensures
        int_rows(r@) == grouped(ints(indices@), safe@),
{
    let ghost iv = ints(indices@);
    let mut r: Vec<Vec<usize>> = Vec::new();
    let mut i: usize = 0;
    assert(int_rows(r@) =~= grouped(iv.take(0), safe@));
    while i < indices.len()
        invariant
            i <= indices.len(),
            iv == ints(indices@),
            forall|k: int| 0 <= k < indices@.len() ==> (#[trigger] indices@[k]) < safe@.len(),
            int_rows(r@) == grouped(iv.take(i as int), safe@),
            forall|g: int| 0 <= g < r@.len() ==> (#[trigger] r@[g])@.len() > 0,
            forall|g: int, k: int|
                0 <= g < r@.len() && 0 <= k < r@[g]@.len() ==> (#[trigger] r@[g]@[k]) < safe@.len(),
        decreases indices.len() - i,
    {
        assert(iv.take(i + 1).drop_last() == iv.take(i as int));
        assert(iv.take(i + 1).last() == indices@[i as int]);
        let ghost before = r@;
        let x: usize = indices[i];
        let n: usize = r.len();
        let joins = n > 0 && safe[x] && safe[r[n - 1][0]];
        if joins {
            assert(int_rows(before).last() == ints(before[n - 1]@));
            assert(int_rows(before).last()[0] == before[n - 1]@[0]);
            let mut g = r.pop().unwrap();
            let ghost old_g = g@;
            g.push(x);
            assert(ints(g@) =~= ints(old_g).push(x as int));
            r.push(g);
            assert(int_rows(r@) =~= int_rows(before).drop_last().push(ints(g@)));
        } else {
            proof {
                if n > 0 {
                    assert(int_rows(before).last() == ints(before[n - 1]@));
                    assert(int_rows(before).last()[0] == before[n - 1]@[0]);
                }
            }
            let mut g: Vec<usize> = Vec::new();
            g.push(x);
            assert(ints(g@) =~= seq![x as int]);
            r.push(g);
            assert(int_rows(r@) =~= int_rows(before).push(ints(g@)));
        }
        i += 1;
    }
    assert(iv.take(i as int) == iv);
    r
}

fn push_windows(out: &mut Vec<Vec<usize>>, group: &Vec<usize>, size: usize)
    requires
        size >= 1,
    ensures
        int_rows(final(out)@) == int_rows(old(out)@) + windows_of(ints(group@), size as int),
{
    let ghost gv = ints(group@);
    let mut from: usize = 0;
    assert(gv.skip(0) == gv);
    while from < group.len()
        invariant
            from <= group.len(),
            size >= 1,
            gv == ints(group@),
            int_rows(out@) + windows_of(gv.skip(from as int), size as int) == int_rows(old(out)@)
                + windows_of(gv, size as int),
        decreases group.len() - from,
    {
        let to: usize = if group.len() - from <= size {
            group.len()
        } else {
            from + size
        };
        let ghost rest = gv.skip(from as int);
        let ghost before = out@;
        let mut w: Vec<usize> = Vec::new();
        let mut k: usize = from;
        while k < to
            invariant
                from <= k <= to <= group.len(),
                w@ == group@.subrange(from as int, k as int),
            decreases to - k,
        {
            w.push(group[k]);
            k += 1;
        }
        assert(ints(w@) =~= rest.take(to - from));
        out.push(w);
        assert(int_rows(out@) =~= int_rows(before).push(ints(w@)));
        proof {
            let next = gv.skip(to as int);
            if rest.len() <= size {
                assert(ints(w@) =~= rest);
                assert(windows_of(rest, size as int) == seq![rest]);
                assert(next.len() == 0);
                assert(windows_of(next, size as int) =~= Seq::<Seq<int>>::empty());
            } else {
                assert(next =~= rest.skip(size as int));
                assert(windows_of(rest, size as int) == seq![rest.take(size as int)] + windows_of(
                    next,
                    size as int,
                ));
            }
            assert(int_rows(before) + windows_of(rest, size as int) =~= int_rows(out@)
                + windows_of(next, size as int));
        }
        from = to;
    }
    assert(windows_of(gv.skip(from as int), size as int) =~= Seq::<Seq<int>>::empty());
    assert(int_rows(out@) + Seq::<Seq<int>>::empty() =~= int_rows(out@));
}

/// The windows in which the calls run.
pub fn plan_windows(decisions: &Vec<ToolDecision>, safe: &Vec<bool>, max_parallel: usize) -> (r: Vec<
    Vec<usize>,
>)
    requires
        decisions@.len() == safe@.len(),
    ensures
        int_rows(r@) == schedule(decisions@, safe@, max_parallel as int),
{
    let indices = runnable_of(decisions);
    let groups = grouped_of(&indices, safe);
    let size: usize = if max_parallel < 1 {
        1
    } else {
        max_parallel
    };
    let ghost gv = int_rows(groups@);
    let mut r: Vec<Vec<usize>> = Vec::new();
    let mut i: usize = 0;
    assert(int_rows(r@) =~= windows_of_all(gv.take(0), size as int));
    while i < groups.len()
        invariant
            i <= groups.len(),
            size >= 1,
            gv == int_rows(groups@),
            int_rows(r@) == windows_of_all(gv.take(i as int), size as int),
        decreases groups.len() - i,
    {
        assert(gv.take(i + 1).drop_last() == gv.take(i as int));
        assert(gv[i as int] == ints(groups@[i as int]@));
        push_windows(&mut r, &groups[i], size);
        i += 1;
    }
    assert(gv.take(i as int) == gv);
    r
}

/// Whether the tool of a call may run beside others.
pub open spec fn safe_flags(specs: Seq<ToolSpec>, calls: Seq<ToolCall>) -> Seq<bool> {
    Seq::new(
        calls.len(),
        |i: int|
            match tool::tool_index(specs, calls[i].name@, 0) {
                Some(k) => specs[k].concurrency_safe,
                None => false,
            },
    )
}

fn safe_flags_of(tools: &HashMapToolRegistry, calls: &Vec<ToolCall>) -> (r: Vec<bool>)
    ensures
        r@ == safe_flags(tools.specs(), calls@),
{
    let mut r: Vec<bool> = Vec::new();
    let mut i: usize = 0;
    while i < calls.len()
        invariant
            i <= calls.len(),
            r@ == safe_flags(tools.specs(), calls@).take(i as int),
        decreases calls.len() - i,
    {
        r.push(tools.concurrency_safe(&calls[i].name));
        i += 1;
    }
    assert(safe_flags(tools.specs(), calls@).take(i as int) == safe_flags(tools.specs(), calls@));
    r
}

/// A batch of tool calls on its way: which windows are to run, and what is answered.
#[derive(Debug)]
pub struct ToolBatch {
    pub calls: Vec<ToolCall>,
    pub windows: Vec<Vec<usize>>,
    pub out: Vec<Option<ToolExecution>>,
}

pub open spec fn entry_view(o: Option<ToolExecution>) -> Option<ToolExecutionV> {
    match o {
        Some(e) => Some(e@),
        None => None,
    }
}

pub open spec fn out_view(out: Seq<Option<ToolExecution>>) -> Seq<Option<ToolExecutionV>> {
    Seq::new(out.len(), |i: int| entry_view(out[i]))
}

/// The answers before any call has run: the refused calls have theirs.
pub open spec fn refusals(calls: Seq<ToolCall>, decisions: Seq<ToolDecision>) -> Seq<
    Option<ToolExecutionV>,
> {
    Seq::new(
        calls.len(),
        |i: int|
            match decisions[i] {
                ToolDecision::Skip(reason) => Some(refused(calls[i]@, reason@)),
                ToolDecision::Run => None,
            },
    )
}

/// `out` with the results of a window, each at the index of its call.
pub open spec fn committed(
    out: Seq<Option<ToolExecutionV>>,
    window: Seq<int>,
    results: Seq<ToolExecution>,
    n: int,
) -> Seq<Option<ToolExecutionV>>
    decreases n,
{
    if n <= 0 {
        out
    } else {
        committed(out, window, results, n - 1).update(window[n - 1], Some(results[n - 1]@))
    }
}

/// `out` with the results of the first `n` windows.
pub open spec fn all_committed(
    out: Seq<Option<ToolExecutionV>>,
    windows: Seq<Seq<int>>,
    results: Seq<Seq<ToolExecution>>,
    n: int,
) -> Seq<Option<ToolExecutionV>>
    decreases n,
{
    if n <= 0 {
        out
    } else {
        committed(
            all_committed(out, windows, results, n - 1),
            windows[n - 1],
            results[n - 1],
            results[n - 1].len() as int,
        )
    }
}

/// Every call is answered.
pub open spec fn is_complete(out: Seq<Option<ToolExecutionV>>) -> bool {
    forall|i: int| 0 <= i < out.len() ==> (#[trigger] out[i]) is Some
}

/// The record is that of the call.
pub open spec fn is_for(e: ToolExecutionV, call: ToolCallV) -> bool {
    e.call == call && e.result.call_id == call.id
}

/// The call numbered `i` is answered, by a record of its own.
pub open spec fn is_answered(
    out: Seq<Option<ToolExecutionV>>,
    calls: Seq<ToolCall>,
    i: int,
) -> bool {
    out[i] matches Some(e) && is_for(e, calls[i]@)
}

/// The results of a window are those of its calls, one for each and in its order.
pub open spec fn are_for_window(
    results: Seq<ToolExecution>,
    window: Seq<int>,
    calls: Seq<ToolCall>,
) -> bool {
    &&& results.len() == window.len()
    &&& forall|k: int|
        0 <= k < results.len() ==> is_for((#[trigger] results[k])@, calls[window[k]]@)
}

proof fn lemma_committed(
    out: Seq<Option<ToolExecutionV>>,
    window: Seq<int>,
    results: Seq<ToolExecution>,
    calls: Seq<ToolCall>,
    n: int,
)
    requires
        out.len() == calls.len(),
        are_for_window(results, window, calls),
        forall|k: int| 0 <= k < window.len() ==> 0 <= #[trigger] window[k] < calls.len(),
        0 <= n <= results.len(),
    ensures
        committed(out, window, results, n).len() == calls.len(),
        forall|i: int|
            0 <= i < calls.len() && is_answered(out, calls, i) ==> #[trigger] is_answered(
                committed(out, window, results, n),
                calls,
                i,
            ),
        forall|k: int|
            0 <= k < n ==> is_answered(
                committed(out, window, results, n),
                calls,
                #[trigger] window[k],
            ),
    decreases n,
{
    if n > 0 {
        lemma_committed(out, window, results, calls, n - 1);
        let before = committed(out, window, results, n - 1);
        let after = committed(out, window, results, n);
        let at = window[n - 1];
        assert(is_for(results[n - 1]@, calls[at]@));
        assert(is_answered(after, calls, at));
        assert forall|i: int|
            0 <= i < calls.len() && is_answered(before, calls, i) implies #[trigger] is_answered(
            after,
            calls,
            i,
        ) by {
            if i != at {
                assert(after[i] == before[i]);
            }
        }
    }
}

/// What is committed stands at the numbers of the window, and all else is as it was.
proof fn lemma_committed_is_exact(
    out: Seq<Option<ToolExecutionV>>,
    window: Seq<int>,
    results: Seq<ToolExecution>,
    n: int,
)
    requires
        0 <= n <= window.len(),
        n <= results.len(),
        forall|k: int| 0 <= k < window.len() ==> 0 <= #[trigger] window[k] < out.len(),
    ensures
        committed(out, window, results, n).len() == out.len(),
        forall|i: int|
            0 <= i < out.len() && !window.take(n).contains(i) ==> #[trigger] committed(
                out,
                window,
                results,
                n,
            )[i] == out[i],
        window.no_duplicates() ==> forall|k: int|
            0 <= k < n ==> committed(out, window, results, n)[window[k]] == Some(
                (#[trigger] results[k])@,
            ),
    decreases n,
{
    if n > 0 {
        lemma_committed_is_exact(out, window, results, n - 1);
        let front = window.take(n - 1);
        let all = window.take(n);
        assert forall|i: int| 0 <= i < out.len() && !all.contains(i) implies #[trigger] committed(
            out,
            window,
            results,
            n,
        )[i] == out[i] by {
            assert(all[n - 1] == window[n - 1]);
            if front.contains(i) {
                let x = choose|x: int| 0 <= x < front.len() && front[x] == i;
                assert(all[x] == i);
            }
        }
        if window.no_duplicates() {
            assert forall|k: int| 0 <= k < n implies committed(out, window, results, n)[window[k]]
                == Some((#[trigger] results[k])@) by {
                if k < n - 1 {
                    assert(window[k] != window[n - 1]);
                }
            }
        }
    }
}

proof fn lemma_all_committed(
    out: Seq<Option<ToolExecutionV>>,
    windows: Seq<Seq<int>>,
    results: Seq<Seq<ToolExecution>>,
    calls: Seq<ToolCall>,
    n: int,
)
    requires
        out.len() == calls.len(),
        results.len() == windows.len(),
        forall|w: int|
            0 <= w < windows.len() ==> are_for_window(#[trigger] results[w], windows[w], calls),
        forall|w: int, k: int|
            0 <= w < windows.len() && 0 <= k < windows[w].len() ==> 0 <= (
            #[trigger] windows[w][k]) < calls.len(),
        0 <= n <= windows.len(),
    ensures
        all_committed(out, windows, results, n).len() == calls.len(),
        forall|i: int|
            0 <= i < calls.len() && is_answered(out, calls, i) ==> #[trigger] is_answered(
                all_committed(out, windows, results, n),
                calls,
                i,
            ),
        forall|w: int, k: int|
            0 <= w < n && 0 <= k < windows[w].len() ==> is_answered(
                all_committed(out, windows, results, n),
                calls,
                #[trigger] windows[w][k],
            ),
    decreases n,
{
    if n > 0 {
        lemma_all_committed(out, windows, results, calls, n - 1);
        let before = all_committed(out, windows, results, n - 1);
        let after = all_committed(out, windows, results, n);
        let window = windows[n - 1];
        let rs = results[n - 1];
        assert(are_for_window(rs, window, calls));
        assert forall|k: int| 0 <= k < window.len() implies 0 <= #[trigger] window[k]
            < calls.len() by {
            assert(windows[n - 1][k] == window[k]);
        }
        lemma_committed(before, window, rs, calls, rs.len() as int);
        assert forall|w: int, k: int|
            0 <= w < n && 0 <= k < windows[w].len() implies is_answered(
            after,
            calls,
            #[trigger] windows[w][k],
        ) by {
            if w < n - 1 {
                assert(is_answered(before, calls, windows[w][k]));
            }
        }
    }
}

proof fn lemma_runnable_holds(decisions: Seq<ToolDecision>, n: int, i: int) -> (x: int)
    requires
        0 <= i < n,
        decisions[i] is Run,
    ensures
        0 <= x < runnable(decisions, n).len(),
        runnable(decisions, n)[x] == i,
    decreases n,
{
    if i == n - 1 {
        runnable(decisions, n).len() - 1
    } else {
        lemma_runnable_holds(decisions, n - 1, i)
    }
}

proof fn lemma_flat_find(ws: Seq<Seq<int>>, x: int) -> (at: (int, int))
    requires
        0 <= x < flat(ws).len(),
    ensures
        0 <= at.0 < ws.len(),
        0 <= at.1 < ws[at.0].len(),
        ws[at.0][at.1] == flat(ws)[x],
    decreases ws.len(),
{
    let before = flat(ws.drop_last());
    if x < before.len() {
        let at = lemma_flat_find(ws.drop_last(), x);
        assert(ws.drop_last()[at.0] == ws[at.0]);
        at
    } else {
        (ws.len() - 1, x - before.len())
    }
}

/// The records come in model order: once the results of every window are in, each for the
/// calls of its window, every call is answered and the record at the place of a call is
/// that call's own.
pub proof fn law_records_come_in_model_order(
    calls: Seq<ToolCall>,
    decisions: Seq<ToolDecision>,
    safe: Seq<bool>,
    max_parallel: int,
    results: Seq<Seq<ToolExecution>>,
)
    requires
        calls.len() == decisions.len(),
        results.len() == schedule(decisions, safe, max_parallel).len(),
        forall|w: int|
            0 <= w < results.len() ==> are_for_window(
                #[trigger] results[w],
                schedule(decisions, safe, max_parallel)[w],
                calls,
            ),
    ensures
        ({
            let out = all_committed(
                refusals(calls, decisions),
                schedule(decisions, safe, max_parallel),
                results,
                results.len() as int,
            );
            &&& out.len() == calls.len()
            &&& is_complete(out)
            &&& forall|i: int| 0 <= i < calls.len() ==> #[trigger] is_answered(out, calls, i)
        }),
{
    let ws = schedule(decisions, safe, max_parallel);
    let n = decisions.len() as int;
    let start = refusals(calls, decisions);
    let out = all_committed(start, ws, results, results.len() as int);
    law_each_call_runs_once_in_order(decisions, safe, max_parallel);
    lemma_runnable_bound(decisions, n);
    lemma_flat_bound(ws, n);
    lemma_all_committed(start, ws, results, calls, results.len() as int);
    assert forall|i: int| 0 <= i < calls.len() implies #[trigger] is_answered(out, calls, i) by {
        if decisions[i] is Run {
            let x = lemma_runnable_holds(decisions, n, i);
            let at = lemma_flat_find(ws, x);
            assert(is_answered(out, calls, ws[at.0][at.1]));
        } else {
            assert(is_answered(start, calls, i));
        }
    }
    assert forall|i: int| 0 <= i < out.len() implies (#[trigger] out[i]) is Some by {
        assert(is_answered(out, calls, i));
    }
}

/// What ran before others ran stands before them: the windows hold the numbers of the calls
/// that may run, each once and in rising order.
proof fn lemma_schedule_rises(decisions: Seq<ToolDecision>, n: int)
    ensures
        forall|x: int, y: int|
            0 <= x < y < runnable(decisions, n).len() ==> (#[trigger] runnable(decisions, n)[x]) < (
            #[trigger] runnable(decisions, n)[y]),
        forall|x: int|
            0 <= x < runnable(decisions, n).len() ==> 0 <= (#[trigger] runnable(decisions, n)[x])
                < n && decisions[runnable(decisions, n)[x]] is Run,
    decreases n,
{
    if n > 0 {
        lemma_schedule_rises(decisions, n - 1);
    }
}

proof fn lemma_flat_at(ws: Seq<Seq<int>>, w: int, k: int) -> (x: int)
    requires
        0 <= w < ws.len(),
        0 <= k < ws[w].len(),
    ensures
        0 <= x < flat(ws).len(),
        flat(ws)[x] == ws[w][k],
        x == flat(ws.take(w)).len() + k,
    decreases ws.len(),
{
    let before = flat(ws.drop_last());
    if w == ws.len() - 1 {
        assert(ws.take(w) =~= ws.drop_last());
        before.len() + k
    } else {
        let x = lemma_flat_at(ws.drop_last(), w, k);
        assert(ws.drop_last().take(w) =~= ws.take(w));
        x
    }
}

proof fn lemma_flat_grows(ws: Seq<Seq<int>>, a: int, b: int)
    requires
        0 <= a < b <= ws.len(),
    ensures
        flat(ws.take(a)).len() + ws[a].len() <= flat(ws.take(b)).len(),
    decreases b,
{
    assert(ws.take(b).drop_last() =~= ws.take(b - 1));
    if a < b - 1 {
        lemma_flat_grows(ws, a, b - 1);
    }
}

proof fn lemma_windows_apart(ws: Seq<Seq<int>>, w: int, k: int, v: int, j: int)
    requires
        forall|x: int, y: int|
            0 <= x < y < flat(ws).len() ==> (#[trigger] flat(ws)[x]) < (#[trigger] flat(ws)[y]),
        0 <= w < ws.len(),
        0 <= k < ws[w].len(),
        0 <= v < ws.len(),
        0 <= j < ws[v].len(),
        ws[w][k] == ws[v][j],
    ensures
        w == v && k == j,
{
    let x = lemma_flat_at(ws, w, k);
    let y = lemma_flat_at(ws, v, j);
    if x < y {
        assert(flat(ws)[x] < flat(ws)[y]);
    }
    if y < x {
        assert(flat(ws)[y] < flat(ws)[x]);
    }
    if w < v {
        lemma_flat_grows(ws, w, v);
    }
    if v < w {
        lemma_flat_grows(ws, v, w);
    }
}

proof fn lemma_all_exact(
    out: Seq<Option<ToolExecutionV>>,
    ws: Seq<Seq<int>>,
    results: Seq<Seq<ToolExecution>>,
    n: int,
)
    requires
        0 <= n <= ws.len(),
        results.len() == ws.len(),
        forall|w: int| 0 <= w < ws.len() ==> (#[trigger] results[w]).len() == ws[w].len(),
        forall|w: int, k: int|
            0 <= w < ws.len() && 0 <= k < ws[w].len() ==> 0 <= (#[trigger] ws[w][k]) < out.len(),
        forall|x: int, y: int|
            0 <= x < y < flat(ws).len() ==> (#[trigger] flat(ws)[x]) < (#[trigger] flat(ws)[y]),
    ensures
        all_committed(out, ws, results, n).len() == out.len(),
        forall|w: int, k: int|
            0 <= w < n && 0 <= k < ws[w].len() ==> all_committed(out, ws, results, n)[
            #[trigger] ws[w][k]] == Some(results[w][k]@),
        forall|i: int|
            0 <= i < out.len() && (forall|w: int, k: int|
                0 <= w < n && 0 <= k < ws[w].len() ==> (#[trigger] ws[w][k]) != i)
                ==> #[trigger] all_committed(out, ws, results, n)[i] == out[i],
    decreases n,
{
    if n > 0 {
        lemma_all_exact(out, ws, results, n - 1);
        let before = all_committed(out, ws, results, n - 1);
        let after = all_committed(out, ws, results, n);
        let window = ws[n - 1];
        let rs = results[n - 1];
        assert forall|k: int| 0 <= k < window.len() implies 0 <= #[trigger] window[k]
            < before.len() by {
            assert(ws[n - 1][k] == window[k]);
        }
        assert forall|a: int, b: int|
            0 <= a < window.len() && 0 <= b < window.len() && a != b implies window[a]
            != window[b] by {
            if window[a] == window[b] {
                lemma_windows_apart(ws, n - 1, a, n - 1, b);
            }
        }
        assert(window.no_duplicates());
        lemma_committed_is_exact(before, window, rs, rs.len() as int);
        assert(window.take(rs.len() as int) =~= window);
        assert forall|w: int, k: int| 0 <= w < n && 0 <= k < ws[w].len() implies after[
        #[trigger] ws[w][k]] == Some(results[w][k]@) by {
            let i = ws[w][k];
            if w < n - 1 {
                if window.contains(i) {
                    let j = choose|j: int| 0 <= j < window.len() && window[j] == i;
                    lemma_windows_apart(ws, w, k, n - 1, j);
                }
                assert(after[i] == before[i]);
            } else {
                let r = rs[k];
            }
        }
        assert forall|i: int|
            0 <= i < out.len() && (forall|w: int, k: int|
                0 <= w < n && 0 <= k < ws[w].len() ==> (#[trigger] ws[w][k])
                    != i) implies #[trigger] after[i] == out[i] by {
            if window.contains(i) {
                let j = choose|j: int| 0 <= j < window.len() && window[j] == i;
                assert(ws[n - 1][j] == i);
            }
            assert(before[i] == out[i]);
        }
    }
}

/// The record at the place of a call is the very one that its run gave, and at the place of a
/// call that was refused it is the refusal with its reason.
pub proof fn law_records_are_what_the_runs_gave(
    calls: Seq<ToolCall>,
    decisions: Seq<ToolDecision>,
    safe: Seq<bool>,
    max_parallel: int,
    results: Seq<Seq<ToolExecution>>,
)
    requires
        calls.len() == decisions.len(),
        results.len() == schedule(decisions, safe, max_parallel).len(),
        forall|w: int|
            0 <= w < results.len() ==> (#[trigger] results[w]).len() == schedule(
                decisions,
                safe,
                max_parallel,
            )[w].len(),
    ensures
        ({
            let ws = schedule(decisions, safe, max_parallel);
            let out = all_committed(
                refusals(calls, decisions),
                ws,
                results,
                results.len() as int,
            );
            &&& forall|w: int, k: int|
                0 <= w < ws.len() && 0 <= k < ws[w].len() ==> decisions[#[trigger] ws[w][k]] is Run
                    && out[ws[w][k]] == Some(results[w][k]@)
            &&& forall|i: int|
                0 <= i < calls.len() ==> (#[trigger] decisions[i] matches ToolDecision::Skip(
                    reason,
                ) ==> (out[i] matches Some(e) && e.call == calls[i]@ && e.result.call_id
                    == calls[i].id@ && e.result.is_error && e.result.content == "（被拦截）"@
                    + reason@))
        }),
{
    let ws = schedule(decisions, safe, max_parallel);
    let n = decisions.len() as int;
    let start = refusals(calls, decisions);
    law_each_call_runs_once_in_order(decisions, safe, max_parallel);
    lemma_schedule_rises(decisions, n);
    lemma_runnable_bound(decisions, n);
    lemma_flat_bound(ws, n);
    lemma_all_exact(start, ws, results, results.len() as int);
    let out = all_committed(start, ws, results, results.len() as int);
    assert forall|w: int, k: int| 0 <= w < ws.len() && 0 <= k < ws[w].len() implies decisions[
    #[trigger] ws[w][k]] is Run && out[ws[w][k]] == Some(results[w][k]@) by {
        let x = lemma_flat_at(ws, w, k);
        assert(decisions[runnable(decisions, n)[x]] is Run);
    }
    assert forall|i: int| 0 <= i < calls.len() implies (
    #[trigger] decisions[i] matches ToolDecision::Skip(reason) ==> (out[i] matches Some(e)
        && e.call == calls[i]@ && e.result.call_id == calls[i].id@ && e.result.is_error
        && e.result.content == "（被拦截）"@ + reason@)) by {
        if decisions[i] is Skip {
            assert forall|w: int, k: int| 0 <= w < ws.len() && 0 <= k < ws[w].len() implies (
            #[trigger] ws[w][k]) != i by {
                assert(decisions[ws[w][k]] is Run);
            }
            assert(out[i] == start[i]);
        }
    }
}

impl ToolBatch {
    /// There is a place for the answer to every call, and the windows hold the numbers of
    /// calls.
    pub open spec fn wf(&self) -> bool {
        &&& self.out@.len() == self.calls@.len()
        &&& forall|w: int, k: int|
            0 <= w < self.windows@.len() && 0 <= k < self.windows@[w]@.len() ==> (
            #[trigger] self.windows@[w]@[k]) < self.calls@.len()
    }

    /// Plans a batch: `decisions` holds what the hooks say of each call.
    pub fn new(
        calls: Vec<ToolCall>,
        decisions: &Vec<ToolDecision>,
        tools: &HashMapToolRegistry,
        max_parallel: usize,
    ) -> (r: Self)
        requires
            calls@.len() == decisions@.len(),
        ensures
            r.wf(),
            r.calls == calls,
            int_rows(r.windows@) == schedule(
                decisions@,
                safe_flags(tools.specs(), calls@),
                max_parallel as int,
            ),
            out_view(r.out@) == refusals(calls@, decisions@),
            forall|i: int|
                0 <= i < calls@.len() ==> match (#[trigger] decisions@[i]) {
                    ToolDecision::Skip(reason) => r.out@[i] matches Some(e) && e.call@
                        == calls@[i]@ && e.result.call_id@ == calls@[i].id@ && e.result.is_error
                        && e.result.content@ == "（被拦截）"@ + reason@,
                    ToolDecision::Run => r.out@[i] is None,
                },
    {
        let safe = safe_flags_of(tools, &calls);
        let windows = plan_windows(decisions, &safe, max_parallel);
        let mut out: Vec<Option<ToolExecution>> = Vec::new();
        let mut i: usize = 0;
        while i < calls.len()
            invariant
                i <= calls.len(),
                calls@.len() == decisions@.len(),
                out_view(out@) == refusals(calls@, decisions@).take(i as int),
            decreases calls.len() - i,
        {
            let ghost before = out@;
            let entry = match &decisions[i] {
                ToolDecision::Skip(reason) => {
                    let content = types::prefixed("（被拦截）", reason);
                    let result = ToolResult {
                        call_id: calls[i].id.clone(),
                        content,
                        is_error: true,
                    };
                    Some(ToolExecution { call: calls[i].clone(), result })
                },
                ToolDecision::Run => None,
            };
            let ghost seen = entry_view(entry);
            out.push(entry);
            assert(out_view(out@) =~= out_view(before).push(seen));
            i += 1;
        }
        assert(refusals(calls@, decisions@).take(i as int) == refusals(calls@, decisions@));
        proof {
            let flags = safe_flags(tools.specs(), calls@);
            law_each_call_runs_once_in_order(decisions@, flags, max_parallel as int);
            lemma_runnable_bound(decisions@, decisions@.len() as int);
            lemma_flat_bound(int_rows(windows@), decisions@.len() as int);
            assert forall|w: int, k: int|
                0 <= w < windows@.len() && 0 <= k < windows@[w]@.len() implies (
            #[trigger] windows@[w]@[k]) < calls@.len() by {
                assert(int_rows(windows@)[w][k] == windows@[w]@[k]);
            }
            assert(out_view(out@).len() == out@.len());
            assert forall|i: int| 0 <= i < calls@.len() implies match (#[trigger] decisions@[i]) {
                ToolDecision::Skip(reason) => out@[i] matches Some(e) && e.call@ == calls@[i]@
                    && e.result.call_id@ == calls@[i].id@ && e.result.is_error && e.result.content@
                    == "（被拦截）"@ + reason@,
                ToolDecision::Run => out@[i] is None,
            } by {
                assert(out_view(out@)[i] == entry_view(out@[i]));
            }
        }
        ToolBatch { calls, windows, out }
    }

    /// Takes the results of a window, in the window's order.
    pub fn commit(&mut self, window: usize, results: Vec<ToolExecution>)
        requires
            old(self).wf(),
            window < old(self).windows@.len(),
            results@.len() == old(self).windows@[window as int]@.len(),
        ensures
            final(self).wf(),
            final(self).calls == old(self).calls,
            final(self).windows == old(self).windows,
            out_view(final(self).out@) == committed(
                out_view(old(self).out@),
                ints(old(self).windows@[window as int]@),
                results@,
                results@.len() as int,
            ),
            forall|i: int|
                0 <= i < old(self).out@.len() && !ints(
                    old(self).windows@[window as int]@,
                ).contains(i) ==> #[trigger] out_view(final(self).out@)[i] == out_view(
                    old(self).out@,
                )[i],
            ints(old(self).windows@[window as int]@).no_duplicates() ==> forall|k: int|
                0 <= k < results@.len() ==> out_view(
                    final(self).out@,
                )[old(self).windows@[window as int]@[k] as int] == Some((#[trigger] results@[k])@),
    {
        let ghost start = out_view(self.out@);
        let ghost w = ints(self.windows@[window as int]@);
        let mut k: usize = 0;
        while k < results.len()
            invariant
                k <= results.len(),
                self.wf(),
                window < self.windows@.len(),
                self.windows == old(self).windows,
                self.calls == old(self).calls,
                self.out@.len() == old(self).out@.len(),
                w == ints(self.windows@[window as int]@),
                results@.len() == self.windows@[window as int]@.len(),
                out_view(self.out@) == committed(start, w, results@, k as int),
            decreases results.len() - k,
        {
            let at: usize = self.windows[window][k];
            let ghost before = self.out@;
            self.out.set(at, Some(results[k].clone()));
            assert(out_view(self.out@) =~= out_view(before).update(
                at as int,
                Some(results@[k as int]@),
            ));
            assert(w[k as int] == at);
            k += 1;
        }
        proof {
            lemma_committed_is_exact(start, w, results@, results@.len() as int);
            assert forall|k: int| w.no_duplicates() && 0 <= k < results@.len() implies out_view(
                self.out@,
            )[old(self).windows@[window as int]@[k] as int] == Some((#[trigger] results@[k])@) by {
                assert(w[k] == old(self).windows@[window as int]@[k] as int);
            }
        }
    }

    /// The records of all calls in model order, once every call is answered.
    pub fn executions(&self) -> (r: Option<Vec<ToolExecution>>)
        ensures
            r is Some <==> is_complete(out_view(self.out@)),
            r matches Some(v) ==> v@.len() == self.out@.len() && forall|i: int|
                0 <= i < v@.len() ==> self.out@[i] == Some(#[trigger] v@[i]) && out_view(
                    self.out@,
                )[i] == Some(v@[i]@),
    {
        let mut v: Vec<ToolExecution> = Vec::new();
        let mut i: usize = 0;
        while i < self.out.len()
            invariant
                i <= self.out.len(),
                v@.len() == i,
                forall|k: int| 0 <= k < i ==> self.out@[k] == Some(#[trigger] v@[k]),
            decreases self.out.len() - i,
        {
            match &self.out[i] {
                Some(e) => {
                    v.push(e.clone());
                },
                None => {
                    assert(out_view(self.out@)[i as int] is None);
                    return None;
                },
            }
            i += 1;
        }
        assert forall|k: int| 0 <= k < self.out@.len() implies (#[trigger] out_view(self.out@)[k])
            is Some by {
            assert(self.out@[k] == Some(v@[k]));
        }
        Some(v)
    }
}

} // verus!
