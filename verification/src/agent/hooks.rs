//! What hooks may say about a request, a tool call and a failure.

use crate::agent::sent;
use crate::json::Json;
use vstd::prelude::*;

verus! {

/// What a hook changes about a request.
#[derive(Debug, PartialEq, Eq)]
pub struct RequestPatch {
    /// Text that follows the system prompt.
    pub preamble_override: Option<String>,
    /// The tools that the request offers, where not all of them.
    pub active_tools: Option<Vec<String>>,
    /// Further top-level fields of the request.
    pub extra_params: Option<Json>,
}

impl Default for RequestPatch {
    fn default() -> (r: Self)
        ensures
            r.preamble_override is None,
            r.active_tools is None,
            r.extra_params is None,
    {
        RequestPatch { preamble_override: None, active_tools: None, extra_params: None }
    }
}

/// Whether a tool call may run.
#[derive(Debug, PartialEq, Eq)]
pub enum ToolDecision {
    Run,
    /// The call does not run, and the model is told why.
    Skip(String),
}

impl Clone for ToolDecision {
    fn clone(&self) -> (r: Self)
        ensures
            r == *self,
    {
        match self {
            ToolDecision::Run => ToolDecision::Run,
            ToolDecision::Skip(reason) => ToolDecision::Skip(reason.clone()),
        }
    }
}

/// The first refusal among the answers at or behind `i`, else permission.
pub open spec fn first_refusal(answers: Seq<ToolDecision>, i: int) -> ToolDecision
    decreases answers.len() - i,
{
    if i < 0 || i >= answers.len() {
        ToolDecision::Run
    } else if answers[i] is Skip {
        answers[i]
    } else {
        first_refusal(answers, i + 1)
    }
}

/// What the answers of the hooks, in their order, amount to: the first refusal counts.
pub fn decide(answers: &Vec<ToolDecision>) -> (r: ToolDecision)
    ensures
        r == first_refusal(answers@, 0),
        match r {
            ToolDecision::Run => forall|i: int|
                0 <= i < answers@.len() ==> (#[trigger] answers@[i]) is Run,
            ToolDecision::Skip(reason) => exists|i: int|
                0 <= i < answers@.len() && (#[trigger] answers@[i]) == ToolDecision::Skip(reason)
                    && forall|j: int| 0 <= j < i ==> (#[trigger] answers@[j]) is Run,
        },
{
    proof {
        sent::law_the_first_refusal_counts(answers@);
    }
    let mut i: usize = 0;
    while i < answers.len()
        invariant
            i <= answers.len(),
            first_refusal(answers@, 0) == first_refusal(answers@, i as int),
        decreases answers.len() - i,
    {
        if let ToolDecision::Skip(_) = &answers[i] {
            proof {
                sent::law_the_first_refusal_counts(answers@);
            }
            return answers[i].clone();
        }
        i += 1;
    }
    ToolDecision::Run
}

/// What to do about a failed request.
#[derive(Debug, Clone, Copy, PartialEq, Eq, Structural)]
pub enum RetryAction {
    Retry,
    Abort,
}

/// What a hook knows of the request.
#[derive(Debug, PartialEq, Eq)]
pub struct HookCtx {
    pub turn: u32,
    pub step: u32,
    pub model: String,
    pub request_id: String,
    /// The model calls that are left behind this one.
    pub remaining_turns: usize,
}

impl HookCtx {
    pub fn new(
        turn: u32,
        step: u32,
        model: String,
        request_id: String,
        remaining_turns: usize,
    ) -> (r: Self)
        ensures
            r.turn == turn,
            r.step == step,
            r.model == model,
            r.request_id == request_id,
            r.remaining_turns == remaining_turns,
    {
        HookCtx { turn, step, model, request_id, remaining_turns }
    }
}

} // verus!
