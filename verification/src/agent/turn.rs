//! The turn of the agent as a state machine.
//!
//! A turn begins with the user's message and consists of steps. A step is one request to
//! the model and the tool calls that the reply asks for. The caller performs what the
//! machine asks for (requests, hooks, tools) and hands back what came of it; the machine
//! keeps the session and decides what comes next. Every message that a request carries
//! is a projection of the session's log.

use crate::agent::error::LoopError;
use crate::agent::hooks::{RequestPatch, RetryAction};
use crate::agent::prompt;
use crate::agent::prompt::LocalClock;
use crate::agent::seam::CompletionRequest;
use crate::agent::seen;
use crate::agent::session;
use crate::agent::session::{Session, SessionEvent, SessionEventV, TurnEndReason};
use crate::agent::tool;
use crate::agent::tool::{HashMapToolRegistry, ToolResult, ToolResultV};
use crate::agent::tool_calls::ToolExecution;
use crate::agent::types;
use crate::agent::types::{
    ContentBlockV, LlmError, LlmMessage, LlmMessageV, LlmRole, StreamEvent, StreamEventV, TokenUsage, ToolCall,
    ToolCallV,
};
use crate::json;
use crate::text;
use vstd::prelude::*;

verus! {

/// The limits of the loop.
#[derive(Debug, PartialEq, Eq)]
pub struct LoopConfig {
    /// How many model calls a turn may make.
    pub max_turns: usize,
    /// The text that every request begins with.
    pub system_prompt: String,
    /// How many calls may be left when the model is told to come to an end.
    pub budget_warning_threshold: usize,
    /// How often a failed request may be sent again in a turn.
    pub max_request_retries: usize,
    /// How many tools may run side by side.
    pub max_parallel_tools: usize,
    /// The limit on the length of a reply, where there is one.
    pub max_tokens: Option<u32>,
}

impl LoopConfig {
    pub fn new(max_turns: usize, system_prompt: String) -> (r: Self)
        ensures
            r.max_turns == max_turns,
            r.system_prompt == system_prompt,
            r.budget_warning_threshold == 3,
            r.max_request_retries == 1,
            r.max_parallel_tools == 4,
            r.max_tokens is None,
    {
        LoopConfig {
            max_turns,
            system_prompt,
            budget_warning_threshold: 3,
            max_request_retries: 1,
            max_parallel_tools: 4,
            max_tokens: None,
        }
    }
}

/// What the loop reports while a turn runs.
#[derive(Debug, PartialEq, Eq)]
pub enum LoopEvent {
    Delta(String),
    ReasoningDelta(String),
    ToolCall { call: ToolCall },
    ToolResult { call: ToolCall, result: ToolResult },
    Usage(TokenUsage),
}

pub enum LoopEventV {
    Delta(Seq<char>),
    ReasoningDelta(Seq<char>),
    ToolCall { call: ToolCallV },
    ToolResult { call: ToolCallV, result: ToolResultV },
    Usage(TokenUsage),
}

impl View for LoopEvent {
    type V = LoopEventV;

    open spec fn view(&self) -> LoopEventV {
        match self {
            LoopEvent::Delta(t) => LoopEventV::Delta(t@),
            LoopEvent::ReasoningDelta(t) => LoopEventV::ReasoningDelta(t@),
            LoopEvent::ToolCall { call } => LoopEventV::ToolCall { call: call@ },
            LoopEvent::ToolResult { call, result } => LoopEventV::ToolResult {
                call: call@,
                result: result@,
            },
            LoopEvent::Usage(u) => LoopEventV::Usage(*u),
        }
    }
}

/// How a turn came out. `turns_used` counts the model calls.
#[derive(Debug, PartialEq, Eq)]
pub enum TurnOutcome {
    Completed { content: String, usage: Option<TokenUsage>, turns_used: u32 },
    Cancelled { content: String, usage: Option<TokenUsage>, turns_used: u32 },
    MaxTurns { content: String, usage: Option<TokenUsage>, turns_used: u32 },
    Failed { content: String, usage: Option<TokenUsage>, turns_used: u32, err: LoopError },
}

pub enum TurnOutcomeV {
    Completed { content: Seq<char>, usage: Option<TokenUsage>, turns_used: u32 },
    Cancelled { content: Seq<char>, usage: Option<TokenUsage>, turns_used: u32 },
    MaxTurns { content: Seq<char>, usage: Option<TokenUsage>, turns_used: u32 },
    Failed { content: Seq<char>, usage: Option<TokenUsage>, turns_used: u32, err: LoopError },
}

impl View for TurnOutcome {
    type V = TurnOutcomeV;

    open spec fn view(&self) -> TurnOutcomeV {
        match self {
            TurnOutcome::Completed { content, usage, turns_used } => TurnOutcomeV::Completed {
                content: content@,
                usage: *usage,
                turns_used: *turns_used,
            },
            TurnOutcome::Cancelled { content, usage, turns_used } => TurnOutcomeV::Cancelled {
                content: content@,
                usage: *usage,
                turns_used: *turns_used,
            },
            TurnOutcome::MaxTurns { content, usage, turns_used } => TurnOutcomeV::MaxTurns {
                content: content@,
                usage: *usage,
                turns_used: *turns_used,
            },
            TurnOutcome::Failed { content, usage, turns_used, err } => TurnOutcomeV::Failed {
                content: content@,
                usage: *usage,
                turns_used: *turns_used,
                err: *err,
            },
        }
    }
}

impl TurnOutcomeV {
    pub open spec fn text(self) -> Seq<char> {
        match self {
            TurnOutcomeV::Completed { content, .. } => content,
            TurnOutcomeV::Cancelled { content, .. } => content,
            TurnOutcomeV::MaxTurns { content, .. } => content,
            TurnOutcomeV::Failed { content, .. } => content,
        }
    }

    pub open spec fn tokens(self) -> Option<TokenUsage> {
        match self {
            TurnOutcomeV::Completed { usage, .. } => usage,
            TurnOutcomeV::Cancelled { usage, .. } => usage,
            TurnOutcomeV::MaxTurns { usage, .. } => usage,
            TurnOutcomeV::Failed { usage, .. } => usage,
        }
    }

    pub open spec fn calls_made(self) -> u32 {
        match self {
            TurnOutcomeV::Completed { turns_used, .. } => turns_used,
            TurnOutcomeV::Cancelled { turns_used, .. } => turns_used,
            TurnOutcomeV::MaxTurns { turns_used, .. } => turns_used,
            TurnOutcomeV::Failed { turns_used, .. } => turns_used,
        }
    }
}

impl TurnOutcome {
    /// The text that the model produced in the turn.
    pub fn content(&self) -> (r: &str)
        ensures
            r@ == self@.text(),
    {
        match self {
            TurnOutcome::Completed { content, .. } => content,
            TurnOutcome::Cancelled { content, .. } => content,
            TurnOutcome::MaxTurns { content, .. } => content,
            TurnOutcome::Failed { content, .. } => content,
        }
    }

    pub fn usage(&self) -> (r: Option<&TokenUsage>)
        ensures
            match r {
                Some(u) => self@.tokens() == Some(*u),
                None => self@.tokens() is None,
            },
    {
        match self {
            TurnOutcome::Completed { usage, .. } => usage.as_ref(),
            TurnOutcome::Cancelled { usage, .. } => usage.as_ref(),
            TurnOutcome::MaxTurns { usage, .. } => usage.as_ref(),
            TurnOutcome::Failed { usage, .. } => usage.as_ref(),
        }
    }

    pub fn turns_used(&self) -> (r: u32)
        ensures
            r == self@.calls_made(),
    {
        match self {
            TurnOutcome::Completed { turns_used, .. } => *turns_used,
            TurnOutcome::Cancelled { turns_used, .. } => *turns_used,
            TurnOutcome::MaxTurns { turns_used, .. } => *turns_used,
            TurnOutcome::Failed { turns_used, .. } => *turns_used,
        }
    }
}

/// Where a turn stands.
#[derive(Debug, Clone, Copy, PartialEq, Eq, Structural)]
pub enum Phase {
    /// No turn is on its way.
    Idle,
    /// The next step is due.
    Between,
    /// A request is out and its stream not yet open.
    Requesting,
    /// The reply is being read.
    Streaming,
    /// The reply is whole.
    Replied,
    /// The hooks are being asked about a failure.
    Failing,
    /// A hook asked for another try, which is being prepared.
    Preparing,
    /// The tools are running.
    Tools,
}

/// The state of the machine.
pub struct AgentV {
    pub log: Seq<SessionEventV>,
    pub phase: Phase,
    pub turn: u32,
    pub steps: u32,
    pub retries: usize,
    /// The text of the turn, and of the step.
    pub content: Seq<char>,
    pub step_content: Seq<char>,
    pub usage: Option<TokenUsage>,
    pub step_usage: Option<TokenUsage>,
    pub step_calls: Seq<ToolCallV>,
    /// The failure that the hooks are asked about.
    pub failure: Option<LoopError>,
}

/// The state when the turn has ended for the reason.
pub open spec fn ended(s: AgentV, reason: TurnEndReason) -> AgentV {
    AgentV {
        log: s.log.push(SessionEventV::TurnEnd { turn: s.turn, reason }),
        phase: Phase::Idle,
        ..s
    }
}

pub open spec fn begun(s: AgentV, input: Seq<char>) -> AgentV {
    let turn = (session::turns_begun(s.log) + 1) as u32;
    let started = s.log.push(SessionEventV::TurnStart { turn });
    AgentV {
        log: if input.len() == 0 {
            started
        } else {
            started.push(
                SessionEventV::UserMessage {
                    id: "u_"@ + text::nat_text(turn as nat),
                    content: input,
                    source: "user"@,
                },
            )
        },
        phase: Phase::Between,
        turn,
        steps: 0,
        retries: 0,
        content: Seq::empty(),
        step_content: Seq::empty(),
        usage: None,
        step_usage: None,
        step_calls: Seq::empty(),
        failure: None,
    }
}

/// The state when a request is due: the step has begun and nothing of it has come yet.
pub open spec fn stepped(s: AgentV) -> AgentV {
    AgentV {
        log: s.log.push(SessionEventV::StepStart { turn: s.turn, step: (s.steps + 1) as u32 }),
        phase: Phase::Requesting,
        steps: (s.steps + 1) as u32,
        step_content: Seq::empty(),
        step_usage: None,
        step_calls: Seq::empty(),
        ..s
    }
}

/// The state with one more event of the stream.
pub open spec fn received(s: AgentV, ev: StreamEventV) -> AgentV {
    match ev {
        StreamEventV::TextDelta(t) => AgentV {
            content: s.content + t,
            step_content: s.step_content + t,
            ..s
        },
        StreamEventV::ReasoningDelta(_) => s,
        StreamEventV::ToolCall { call, .. } => AgentV { step_calls: s.step_calls.push(call), ..s },
        StreamEventV::Usage(u) => AgentV { usage: Some(u), step_usage: Some(u), ..s },
        StreamEventV::Finish(_) => AgentV { phase: Phase::Replied, ..s },
    }
}

/// What is reported of an event of the stream.
pub open spec fn reported(ev: StreamEventV) -> Option<LoopEventV> {
    match ev {
        StreamEventV::TextDelta(t) => Some(LoopEventV::Delta(t)),
        StreamEventV::ReasoningDelta(t) => Some(LoopEventV::ReasoningDelta(t)),
        StreamEventV::ToolCall { call, .. } => Some(LoopEventV::ToolCall { call }),
        StreamEventV::Usage(u) => Some(LoopEventV::Usage(u)),
        StreamEventV::Finish(_) => None,
    }
}

/// The state with the step's reply in the log.
pub open spec fn recorded(s: AgentV, interrupted: bool) -> AgentV {
    AgentV {
        log: s.log.push(
            SessionEventV::AssistantMessage {
                content: s.step_content,
                tool_calls: s.step_calls,
                usage: s.step_usage,
                interrupted,
            },
        ),
        ..s
    }
}

/// The log with the first `n` calls added.
pub open spec fn with_calls_logged(log: Seq<SessionEventV>, calls: Seq<ToolCallV>, n: int) -> Seq<
    SessionEventV,
>
    decreases n,
{
    if n <= 0 {
        log
    } else {
        with_calls_logged(log, calls, n - 1).push(
            SessionEventV::ToolCall {
                call_id: calls[n - 1].id,
                name: calls[n - 1].name,
                arguments: calls[n - 1].arguments,
            },
        )
    }
}

/// The log with the first `n` results added.
pub open spec fn with_results_logged(
    log: Seq<SessionEventV>,
    runs: Seq<ToolExecution>,
    n: int,
) -> Seq<SessionEventV>
    decreases n,
{
    if n <= 0 {
        log
    } else {
        let r = runs[n - 1].result;
        with_results_logged(log, runs, n - 1).push(
            SessionEventV::ToolResult {
                call_id: r.call_id@,
                content: r.content@,
                is_error: r.is_error,
            },
        )
    }
}

/// The state when the reply is whole. Without calls the turn is over, else they are due.
pub open spec fn replied(s: AgentV) -> AgentV {
    let r = recorded(s, false);
    if s.step_calls.len() == 0 {
        ended(r, TurnEndReason::Completed)
    } else {
        AgentV {
            log: with_calls_logged(r.log, s.step_calls, s.step_calls.len() as int),
            phase: Phase::Tools,
            ..r
        }
    }
}

/// What is due at the start of a step.
#[derive(Debug, PartialEq, Eq)]
pub enum StepPlan {
    /// Send the request numbered `step`; `remaining` more may follow it.
    Request { turn: u32, step: u32, remaining: usize },
    Done(TurnOutcome),
}

/// What is due when a reply is whole.
#[derive(Debug, PartialEq, Eq)]
pub enum ReplyPlan {
    RunTools(Vec<ToolCall>),
    Done(TurnOutcome),
}

/// What is due when a request or its stream failed.
#[derive(Debug, PartialEq, Eq)]
pub enum FailurePlan {
    AskHooks,
    Done(TurnOutcome),
}

/// What is due when the hooks have spoken about a failure.
#[derive(Debug, PartialEq, Eq)]
pub enum RecoveryPlan {
    Prepare,
    Done(TurnOutcome),
}

impl StepPlan {
    pub open spec fn outcome(self) -> Option<TurnOutcomeV> {
        match self {
            StepPlan::Done(o) => Some(o@),
            StepPlan::Request { .. } => None,
        }
    }
}

impl ReplyPlan {
    pub open spec fn outcome(self) -> Option<TurnOutcomeV> {
        match self {
            ReplyPlan::Done(o) => Some(o@),
            ReplyPlan::RunTools(_) => None,
        }
    }
}

impl FailurePlan {
    pub open spec fn outcome(self) -> Option<TurnOutcomeV> {
        match self {
            FailurePlan::Done(o) => Some(o@),
            FailurePlan::AskHooks => None,
        }
    }
}

impl RecoveryPlan {
    pub open spec fn outcome(self) -> Option<TurnOutcomeV> {
        match self {
            RecoveryPlan::Done(o) => Some(o@),
            RecoveryPlan::Prepare => None,
        }
    }
}

/// What can happen in a turn that has begun.
pub enum TurnMove {
    Step { cancelled: bool },
    Opened,
    Event(StreamEventV),
    StreamEnded,
    Interrupted,
    Failed(LlmError),
    HooksAnswered(Option<RetryAction>),
    Prepared { log: Seq<SessionEventV>, worth_it: bool },
    ReplyDone,
    ToolsDone(Seq<ToolExecution>),
}

/// Whether the turn stands where the move can happen.
pub open spec fn may(s: AgentV, m: TurnMove) -> bool {
    match m {
        TurnMove::Step { cancelled } => s.phase == Phase::Between && (!cancelled ==> s.steps
            < u32::MAX),
        TurnMove::Opened => s.phase == Phase::Requesting,
        TurnMove::Event(_) => s.phase == Phase::Streaming,
        TurnMove::StreamEnded => s.phase == Phase::Streaming,
        TurnMove::Interrupted => s.phase == Phase::Streaming,
        TurnMove::Failed(_) => s.phase == Phase::Requesting || s.phase == Phase::Streaming,
        TurnMove::HooksAnswered(_) => s.phase == Phase::Failing,
        TurnMove::Prepared { .. } => s.phase == Phase::Preparing,
        TurnMove::ReplyDone => s.phase == Phase::Replied,
        TurnMove::ToolsDone(_) => s.phase == Phase::Tools,
    }
}

/// Whether the step has produced what another try would produce again.
pub open spec fn has_produced(s: AgentV) -> bool {
    s.phase == Phase::Streaming && (s.step_content.len() > 0 || s.step_calls.len() > 0)
}

/// Whether another try is prepared.
pub open spec fn tries_again(s: AgentV, c: LoopConfig, action: Option<RetryAction>) -> bool {
    action == Some(RetryAction::Retry) && s.retries < c.max_request_retries
}

/// The state behind a move.
pub open spec fn moved(s: AgentV, c: LoopConfig, m: TurnMove) -> AgentV {
    match m {
        TurnMove::Step { cancelled } => if cancelled {
            ended(s, TurnEndReason::Aborted)
        } else if s.steps >= c.max_turns {
            ended(s, TurnEndReason::MaxTokens)
        } else {
            stepped(s)
        },
        TurnMove::Opened => AgentV { phase: Phase::Streaming, ..s },
        TurnMove::Event(ev) => received(s, ev),
        TurnMove::StreamEnded => AgentV { phase: Phase::Replied, ..s },
        TurnMove::Interrupted => ended(recorded(s, true), TurnEndReason::Aborted),
        TurnMove::Failed(e) => if has_produced(s) {
            ended(s, TurnEndReason::Error)
        } else {
            AgentV { phase: Phase::Failing, failure: Some(LoopError::Llm(e)), ..s }
        },
        TurnMove::HooksAnswered(action) => if tries_again(s, c, action) {
            AgentV { phase: Phase::Preparing, ..s }
        } else {
            ended(s, TurnEndReason::Error)
        },
        TurnMove::Prepared { log, worth_it } => if worth_it {
            AgentV { log, phase: Phase::Between, retries: (s.retries + 1) as usize, ..s }
        } else {
            ended(AgentV { log, ..s }, TurnEndReason::Error)
        },
        TurnMove::ReplyDone => replied(s),
        TurnMove::ToolsDone(runs) => AgentV {
            log: with_results_logged(s.log, runs, runs.len() as int),
            phase: Phase::Between,
            ..s
        },
    }
}

pub open spec fn cancelled_outcome(s: AgentV) -> TurnOutcomeV {
    TurnOutcomeV::Cancelled { content: s.content, usage: s.usage, turns_used: s.steps }
}

pub open spec fn failed_outcome(s: AgentV, err: LoopError) -> TurnOutcomeV {
    TurnOutcomeV::Failed { content: s.content, usage: s.usage, turns_used: s.steps, err }
}

/// How the turn came out, where the move ends it.
pub open spec fn outcome_of(s: AgentV, c: LoopConfig, m: TurnMove) -> Option<TurnOutcomeV> {
    match m {
        TurnMove::Step { cancelled } => if cancelled {
            Some(cancelled_outcome(s))
        } else if s.steps >= c.max_turns {
            Some(
                TurnOutcomeV::MaxTurns { content: s.content, usage: s.usage, turns_used: s.steps },
            )
        } else {
            None
        },
        TurnMove::Interrupted => Some(cancelled_outcome(s)),
        TurnMove::Failed(e) => if has_produced(s) {
            Some(failed_outcome(s, LoopError::Llm(e)))
        } else {
            None
        },
        TurnMove::HooksAnswered(action) => if tries_again(s, c, action) {
            None
        } else {
            Some(failed_outcome(s, s.failure->0))
        },
        TurnMove::Prepared { worth_it, .. } => if worth_it {
            None
        } else {
            Some(failed_outcome(s, s.failure->0))
        },
        TurnMove::ReplyDone => if s.step_calls.len() == 0 {
            Some(
                TurnOutcomeV::Completed { content: s.content, usage: s.usage, turns_used: s.steps },
            )
        } else {
            None
        },
        _ => None,
    }
}

/// What is reported of a move.
pub open spec fn told(m: TurnMove) -> Seq<LoopEventV> {
    match m {
        TurnMove::Event(ev) => match reported(ev) {
            Some(e) => seq![e],
            None => Seq::empty(),
        },
        TurnMove::ToolsDone(runs) => Seq::new(
            runs.len(),
            |i: int| LoopEventV::ToolResult { call: runs[i].call@, result: runs[i].result@ },
        ),
        _ => Seq::empty(),
    }
}

/// The move happens in the state `s` and leaves `t`, with the outcome `o` where it ends
/// the turn.
pub open spec fn takes(
    s: AgentV,
    c: LoopConfig,
    m: TurnMove,
    t: AgentV,
    o: Option<TurnOutcomeV>,
) -> bool {
    may(s, m) && t == moved(s, c, m) && o == outcome_of(s, c, m)
}

pub open spec fn events_view(events: Seq<LoopEvent>) -> Seq<LoopEventV> {
    Seq::new(events.len(), |i: int| events[i]@)
}

/// The agent: its session, its limits and the turn on its way.
#[derive(Debug)]
pub struct LoopAgent {
    session: Session,
    config: LoopConfig,
    phase: Phase,
    turn: u32,
    steps: u32,
    retries: usize,
    content: String,
    step_content: String,
    usage: Option<TokenUsage>,
    step_usage: Option<TokenUsage>,
    step_calls: Vec<ToolCall>,
    failure: Option<LoopError>,
}

impl View for LoopAgent {
    type V = AgentV;

    closed spec fn view(&self) -> AgentV {
        AgentV {
            log: self.session.log(),
            phase: self.phase,
            turn: self.turn,
            steps: self.steps,
            retries: self.retries,
            content: self.content@,
            step_content: self.step_content@,
            usage: self.usage,
            step_usage: self.step_usage,
            step_calls: types::calls_view(self.step_calls@),
            failure: self.failure,
        }
    }
}

impl LoopAgent {
    pub closed spec fn limits(&self) -> LoopConfig {
        self.config
    }

    pub closed spec fn session_name(&self) -> Seq<char> {
        self.session.name()
    }

    /// While a turn is on its way, it has no more steps and no more retries than the
    /// limits allow. A failure is at hand where hooks are asked about one.
    pub closed spec fn wf(&self) -> bool {
        &&& self.session.wf()
        &&& self.phase != Phase::Idle ==> {
            &&& self.steps <= self.config.max_turns
            &&& self.retries <= self.config.max_request_retries
        }
        &&& (self.phase == Phase::Failing || self.phase == Phase::Preparing) ==> self.failure
            is Some
        &&& self.phase == Phase::Preparing ==> self.retries < self.config.max_request_retries
    }

    pub fn new(config: LoopConfig, session_id: String) -> (r: Self)
        ensures
            r.wf(),
            r.limits() == config,
            r.session_name() == session_id@,
            r@.log == Seq::<SessionEventV>::empty(),
            r@.phase == Phase::Idle,
    {
        LoopAgent {
            session: Session::new(session_id),
            config,
            phase: Phase::Idle,
            turn: 0,
            steps: 0,
            retries: 0,
            content: String::new(),
            step_content: String::new(),
            usage: None,
            step_usage: None,
            step_calls: Vec::new(),
            failure: None,
        }
    }

    pub fn session(&self) -> (r: &Session)
        requires
            self.wf(),
        ensures
            r.wf(),
            r.log() == self@.log,
            r.name() == self.session_name(),
    {
        &self.session
    }

    pub fn config(&self) -> (r: &LoopConfig)
        ensures
            *r == self.limits(),
    {
        &self.config
    }

    /// Goes on with another session. A turn that was left unfinished is given up.
    pub fn replace_session(&mut self, session: Session)
        requires
            old(self).wf(),
            session.wf(),
        ensures
            final(self).wf(),
            final(self).limits() == old(self).limits(),
            final(self).session_name() == session.name(),
            final(self)@ == (AgentV { log: session.log(), phase: Phase::Idle, ..old(self)@ }),
    {
        self.session = session;
        self.phase = Phase::Idle;
    }

    fn finish_turn(&mut self, reason: TurnEndReason)
        requires
            old(self).session.wf(),
        ensures
            final(self).wf(),
            final(self)@ == ended(old(self)@, reason),
            final(self).limits() == old(self).limits(),
            final(self).session_name() == old(self).session_name(),
    {
        self.session.append(SessionEvent::TurnEnd { turn: self.turn, reason });
        self.phase = Phase::Idle;
    }

    /// Begins a turn with the user's message.
    pub fn begin_turn(&mut self, input: &LlmMessage)
        requires
            old(self).wf(),
            session::turns_begun(old(self)@.log) < u32::MAX,
        ensures
            final(self).wf(),
            final(self)@ == begun(old(self)@, types::text_of(input@.content)),
            final(self).limits() == old(self).limits(),
            final(self).session_name() == old(self).session_name(),
    {
        let turn = self.session.current_turn() + 1;
        self.session.append(SessionEvent::TurnStart { turn });
        let content = input.plain_text();
        if !content.as_str().is_empty() {
            let id = types::prefixed("u_", &text::u64_text(turn as u64));
            self.session.append(
                SessionEvent::UserMessage { id, content, source: "user".to_owned() },
            );
        }
        self.phase = Phase::Between;
        self.turn = turn;
        self.steps = 0;
        self.retries = 0;
        self.content = String::new();
        self.step_content = String::new();
        self.usage = None;
        self.step_usage = None;
        self.step_calls = Vec::new();
        self.failure = None;
        assert(self@.step_calls == Seq::<ToolCallV>::empty());
    }

    /// Begins the next step, unless the turn was cancelled or its budget is used up.
    pub fn next_step(&mut self, cancelled: bool) -> (r: StepPlan)
        requires
            old(self).wf(),
            old(self)@.phase == Phase::Between,
            !cancelled ==> old(self)@.steps < u32::MAX,
            !cancelled && old(self)@.steps < old(self).limits().max_turns ==> session::steps_begun(
                old(self)@.log,
            ) < u32::MAX,
        ensures
            final(self).wf(),
            final(self).limits() == old(self).limits(),
            final(self).session_name() == old(self).session_name(),
            takes(
                old(self)@,
                old(self).limits(),
                TurnMove::Step { cancelled },
                final(self)@,
                r.outcome(),
            ),
            r matches StepPlan::Request { turn, step, remaining } ==> turn == old(self)@.turn && step
                == old(self)@.steps + 1 && remaining == old(self).limits().max_turns - step,
    {
        if cancelled {
            self.finish_turn(TurnEndReason::Aborted);
            return StepPlan::Done(
                TurnOutcome::Cancelled {
                    content: self.content.clone(),
                    usage: self.usage,
                    turns_used: self.steps,
                },
            );
        }
        if self.steps as u64 >= self.config.max_turns as u64 {
            self.finish_turn(TurnEndReason::MaxTokens);
            return StepPlan::Done(
                TurnOutcome::MaxTurns {
                    content: self.content.clone(),
                    usage: self.usage,
                    turns_used: self.steps,
                },
            );
        }
        self.steps = self.steps + 1;
        self.session.append(SessionEvent::StepStart { turn: self.turn, step: self.steps });
        self.phase = Phase::Requesting;
        self.step_content = String::new();
        self.step_usage = None;
        self.step_calls = Vec::new();
        assert(self@.step_calls == Seq::<ToolCallV>::empty());
        StepPlan::Request {
            turn: self.turn,
            step: self.steps,
            remaining: self.config.max_turns - self.steps as usize,
        }
    }

    /// The request of the step: the system text, the history of the session, and the
    /// tools.
    pub fn build_request(
        &mut self,
        patches: &Vec<RequestPatch>,
        clock: &LocalClock,
        tools: &HashMapToolRegistry,
    ) -> (r: CompletionRequest)
        requires
            old(self).wf(),
            old(self)@.phase == Phase::Requesting,
        ensures
            final(self).wf(),
            final(self)@ == old(self)@,
            final(self).limits() == old(self).limits(),
            final(self).session_name() == old(self).session_name(),
            types::messages_view(r.messages@) == seq![
                LlmMessageV {
                    role: LlmRole::System,
                    content: seq![
                        ContentBlockV::Text(
                            prompt::system_text(
                                old(self).limits().system_prompt@,
                                patches@,
                                *clock,
                                old(self).limits().max_turns as nat,
                                (old(self).limits().max_turns - old(self)@.steps) as nat,
                                old(self).limits().budget_warning_threshold as nat,
                            ),
                        ),
                    ],
                },
            ] + session::history(old(self)@.log),
            seen::is_seen(old(self)@.log, types::messages_view(r.messages@).skip(1)),
            tool::schemas_view(r.tools@) == (match prompt::tools_named(
                patches@,
                patches@.len() as int,
            ) {
                Some(names) => tool::schemas_named(tools.specs(), names, names.len() as int),
                None => tool::schemas_named(
                    tools.specs(),
                    tool::spec_names(tools.specs()),
                    tools.specs().len() as int,
                ),
            }),
            json::opt_view(r.extra_params) == prompt::extra_fields(
                patches@,
                patches@.len() as int,
            ),
            r.stream,
            r.max_tokens == old(self).limits().max_tokens,
            r.reasoning_effort is None,
            r.output_schema is None,
            r.temperature is None,
    {
        let mut history = self.session.derive_history();
        let remaining: usize = self.config.max_turns - self.steps as usize;
        let system = prompt::assemble_system(
            &self.config.system_prompt,
            patches,
            clock,
            self.config.max_turns,
            remaining,
            self.config.budget_warning_threshold,
        );
        let mut messages: Vec<LlmMessage> = Vec::new();
        let first = LlmMessage::text(LlmRole::System, system);
        messages.push(first);
        let ghost hv = history@;
        messages.append(&mut history);
        assert(types::messages_view(messages@) =~= seq![first@] + types::messages_view(hv));
        assert(types::messages_view(messages@).skip(1) =~= types::messages_view(hv));
        let mut req = CompletionRequest::new(messages);
        req.stream = true;
        req.max_tokens = self.config.max_tokens;
        req.tools = tools.assemble_tool_schemas(prompt::active_tools(patches));
        req.extra_params = prompt::extra_params(patches);
        req
    }

    /// The stream of the reply is open.
    pub fn opened(&mut self)
        requires
            old(self).wf(),
            old(self)@.phase == Phase::Requesting,
        ensures
            final(self).wf(),
            takes(old(self)@, old(self).limits(), TurnMove::Opened, final(self)@, None),
            final(self).limits() == old(self).limits(),
            final(self).session_name() == old(self).session_name(),
    {
        self.phase = Phase::Streaming;
    }

    /// Takes an event of the stream and returns what is reported of it.
    pub fn receive(&mut self, ev: StreamEvent) -> (r: Option<LoopEvent>)
        requires
            old(self).wf(),
            old(self)@.phase == Phase::Streaming,
        ensures
            final(self).wf(),
            takes(old(self)@, old(self).limits(), TurnMove::Event(ev@), final(self)@, None),
            final(self).limits() == old(self).limits(),
            final(self).session_name() == old(self).session_name(),
            match r {
                Some(e) => told(TurnMove::Event(ev@)) == seq![e@],
                None => told(TurnMove::Event(ev@)).len() == 0,
            },
    {
        match ev {
            StreamEvent::TextDelta(t) => {
                self.step_content.push_str(&t);
                self.content.push_str(&t);
                Some(LoopEvent::Delta(t))
            },
            StreamEvent::ReasoningDelta(t) => Some(LoopEvent::ReasoningDelta(t)),
            StreamEvent::ToolCall { index: _, call } => {
                let ghost before = self.step_calls@;
                self.step_calls.push(call.clone());
                assert(types::calls_view(self.step_calls@) =~= types::calls_view(before).push(
                    call@,
                ));
                Some(LoopEvent::ToolCall { call })
            },
            StreamEvent::Usage(u) => {
                self.step_usage = Some(u);
                self.usage = Some(u);
                Some(LoopEvent::Usage(u))
            },
            StreamEvent::Finish(_) => {
                self.phase = Phase::Replied;
                None
            },
        }
    }

    /// The stream ended without saying why.
    pub fn stream_ended(&mut self)
        requires
            old(self).wf(),
            old(self)@.phase == Phase::Streaming,
        ensures
            final(self).wf(),
            takes(old(self)@, old(self).limits(), TurnMove::StreamEnded, final(self)@, None),
            final(self).limits() == old(self).limits(),
            final(self).session_name() == old(self).session_name(),
    {
        self.phase = Phase::Replied;
    }

    fn record_reply(&mut self, interrupted: bool)
        requires
            old(self).session.wf(),
        ensures
            final(self).session.wf(),
            final(self)@ == recorded(old(self)@, interrupted),
            final(self).step_calls == old(self).step_calls,
            final(self).limits() == old(self).limits(),
            final(self).session_name() == old(self).session_name(),
    {
        let tool_calls = types::clone_calls(&self.step_calls);
        self.session.append(
            SessionEvent::AssistantMessage {
                content: self.step_content.clone(),
                tool_calls,
                usage: self.step_usage,
                interrupted,
            },
        );
    }

    /// The turn was cancelled while the reply came in: what has come is kept.
    pub fn interrupt(&mut self) -> (r: TurnOutcome)
        requires
            old(self).wf(),
            old(self)@.phase == Phase::Streaming,
        ensures
            final(self).wf(),
            takes(
                old(self)@,
                old(self).limits(),
                TurnMove::Interrupted,
                final(self)@,
                Some(r@),
            ),
            final(self).limits() == old(self).limits(),
            final(self).session_name() == old(self).session_name(),
    {
        self.record_reply(true);
        self.finish_turn(TurnEndReason::Aborted);
        TurnOutcome::Cancelled {
            content: self.content.clone(),
            usage: self.usage,
            turns_used: self.steps,
        }
    }

    fn give_up(&mut self, err: LoopError) -> (r: TurnOutcome)
        requires
            old(self).session.wf(),
        ensures
            final(self).wf(),
            final(self)@ == ended(old(self)@, TurnEndReason::Error),
            final(self).limits() == old(self).limits(),
            final(self).session_name() == old(self).session_name(),
            r@ == failed_outcome(old(self)@, err),
    {
        self.finish_turn(TurnEndReason::Error);
        TurnOutcome::Failed {
            content: self.content.clone(),
            usage: self.usage,
            turns_used: self.steps,
            err,
        }
    }

    /// The request or its stream failed. What the step has produced would be produced
    /// again by another try, so the hooks are asked only where it has produced nothing.
    pub fn fail(&mut self, e: LlmError) -> (r: FailurePlan)
        requires
            old(self).wf(),
            old(self)@.phase == Phase::Requesting || old(self)@.phase == Phase::Streaming,
        ensures
            final(self).wf(),
            final(self).limits() == old(self).limits(),
            final(self).session_name() == old(self).session_name(),
            takes(
                old(self)@,
                old(self).limits(),
                TurnMove::Failed(e),
                final(self)@,
                r.outcome(),
            ),
    {
        let err = LoopError::Llm(e);
        if let Phase::Streaming = self.phase {
            if !self.step_content.as_str().is_empty() || self.step_calls.len() > 0 {
                let o = self.give_up(err);
                return FailurePlan::Done(o);
            }
        }
        self.failure = Some(err);
        self.phase = Phase::Failing;
        FailurePlan::AskHooks
    }

    /// The failure that the hooks are asked about.
    pub fn failure(&self) -> (r: Option<&LoopError>)
        ensures
            match r {
                Some(e) => self@.failure == Some(*e),
                None => self@.failure is None,
            },
    {
        self.failure.as_ref()
    }

    /// Takes the answer of the first hook that gave one. Another try is prepared where
    /// the hook asks for it and the retries are not used up.
    pub fn hooks_answered(&mut self, action: Option<RetryAction>) -> (r: RecoveryPlan)
        requires
            old(self).wf(),
            old(self)@.phase == Phase::Failing,
        ensures
            final(self).wf(),
            final(self).limits() == old(self).limits(),
            final(self).session_name() == old(self).session_name(),
            takes(
                old(self)@,
                old(self).limits(),
                TurnMove::HooksAnswered(action),
                final(self)@,
                r.outcome(),
            ),
    {
        if let Some(RetryAction::Retry) = action {
            if self.retries < self.config.max_request_retries {
                self.phase = Phase::Preparing;
                return RecoveryPlan::Prepare;
            }
        }
        let err = self.failure.clone().unwrap();
        let o = self.give_up(err);
        RecoveryPlan::Done(o)
    }

    /// Takes the session as the preparation of another try left it, and whether the try
    /// is worth making. Where it is not, the turn ends; else the next step is due.
    pub fn prepared(&mut self, session: Session, worth_it: bool) -> (r: Option<TurnOutcome>)
        requires
            old(self).wf(),
            old(self)@.phase == Phase::Preparing,
            session.wf(),
        ensures
            final(self).wf(),
            final(self).limits() == old(self).limits(),
            final(self).session_name() == session.name(),
            takes(
                old(self)@,
                old(self).limits(),
                TurnMove::Prepared { log: session.log(), worth_it },
                final(self)@,
                (match r {
                    Some(o) => Some(o@),
                    None => None,
                }),
            ),
    {
        self.session = session;
        if worth_it {
            self.retries = self.retries + 1;
            self.phase = Phase::Between;
            None
        } else {
            let err = self.failure.clone().unwrap();
            Some(self.give_up(err))
        }
    }

    /// The reply is whole: records it, and either the turn is over or its calls are due.
    pub fn reply_done(&mut self) -> (r: ReplyPlan)
        requires
            old(self).wf(),
            old(self)@.phase == Phase::Replied,
        ensures
            final(self).wf(),
            takes(
                old(self)@,
                old(self).limits(),
                TurnMove::ReplyDone,
                final(self)@,
                r.outcome(),
            ),
            final(self).limits() == old(self).limits(),
            final(self).session_name() == old(self).session_name(),
            r matches ReplyPlan::RunTools(calls) ==> types::calls_view(calls@)
                == old(self)@.step_calls,
    {
        self.record_reply(false);
        let ghost s1 = self@;
        if self.step_calls.len() == 0 {
            self.finish_turn(TurnEndReason::Completed);
            return ReplyPlan::Done(
                TurnOutcome::Completed {
                    content: self.content.clone(),
                    usage: self.usage,
                    turns_used: self.steps,
                },
            );
        }
        let calls = types::clone_calls(&self.step_calls);
        let mut i: usize = 0;
        while i < calls.len()
            invariant
                i <= calls.len(),
                self.session.wf(),
                calls@ == self.step_calls@,
                s1.step_calls == types::calls_view(calls@),
                self@ == (AgentV {
                    log: with_calls_logged(s1.log, s1.step_calls, i as int),
                    ..s1
                }),
                self.config == old(self).config,
                self.session.name() == old(self).session.name(),
            decreases calls.len() - i,
        {
            let c = &calls[i];
            assert(s1.step_calls[i as int] == c@);
            self.session.append(
                SessionEvent::ToolCall {
                    call_id: c.id.clone(),
                    name: c.name.clone(),
                    arguments: c.arguments.clone(),
                },
            );
            i += 1;
        }
        self.phase = Phase::Tools;
        ReplyPlan::RunTools(calls)
    }

    /// Takes the results of the tools, in model order, and returns what is reported.
    pub fn tools_done(&mut self, runs: Vec<ToolExecution>) -> (r: Vec<LoopEvent>)
        requires
            old(self).wf(),
            old(self)@.phase == Phase::Tools,
        ensures
            final(self).wf(),
            takes(
                old(self)@,
                old(self).limits(),
                TurnMove::ToolsDone(runs@),
                final(self)@,
                None,
            ),
            final(self).limits() == old(self).limits(),
            final(self).session_name() == old(self).session_name(),
            events_view(r@) == told(TurnMove::ToolsDone(runs@)),
    {
        let ghost s0 = self@;
        let mut r: Vec<LoopEvent> = Vec::new();
        let mut i: usize = 0;
        while i < runs.len()
            invariant
                i <= runs.len(),
                self.session.wf(),
                self@ == (AgentV { log: with_results_logged(s0.log, runs@, i as int), ..s0 }),
                self.config == old(self).config,
                self.session.name() == old(self).session.name(),
                r@.len() == i,
                forall|k: int|
                    0 <= k < i ==> (#[trigger] r@[k])@ == (LoopEventV::ToolResult {
                        call: runs@[k].call@,
                        result: runs@[k].result@,
                    }),
            decreases runs.len() - i,
        {
            let x = &runs[i];
            r.push(LoopEvent::ToolResult { call: x.call.clone(), result: x.result.clone() });
            self.session.append(
                SessionEvent::ToolResult {
                    call_id: x.result.call_id.clone(),
                    content: x.result.content.clone(),
                    is_error: x.result.is_error,
                },
            );
            i += 1;
        }
        self.phase = Phase::Between;
        assert(events_view(r@) =~= told(TurnMove::ToolsDone(runs@)));
        r
    }
}

/// While a turn runs, it has made no more requests and no more retries than its limits
/// allow, whatever a preparation made of the session.
pub proof fn law_budget_is_kept(agent: LoopAgent)
    requires
        agent.wf(),
        agent@.phase != Phase::Idle,
    ensures
        agent@.steps <= agent.limits().max_turns,
        agent@.retries <= agent.limits().max_request_retries,
{
}

/// Nothing is taken out of the log or changed in it: whatever happens in a turn is added
/// behind what is there.
pub proof fn law_the_log_only_grows(
    s: AgentV,
    input: Seq<char>,
    ev: StreamEventV,
    interrupted: bool,
    reason: TurnEndReason,
    runs: Seq<ToolExecution>,
)
    ensures
        s.log.is_prefix_of(begun(s, input).log),
        s.log.is_prefix_of(stepped(s).log),
        s.log.is_prefix_of(received(s, ev).log),
        s.log.is_prefix_of(recorded(s, interrupted).log),
        s.log.is_prefix_of(replied(s).log),
        s.log.is_prefix_of(ended(s, reason).log),
        s.log.is_prefix_of(with_results_logged(s.log, runs, runs.len() as int)),
{
    lemma_calls_keep_prefix(recorded(s, false).log, s.step_calls, s.step_calls.len() as int);
    lemma_results_keep_prefix(s.log, runs, runs.len() as int);
}

/// A whole reply with its calls, and the results of the tools behind it, reach the model:
/// each call that is answered is in the history that the next request carries.
pub proof fn law_answered_calls_reach_the_model(
    log: Seq<SessionEventV>,
    s: AgentV,
    runs: Seq<ToolExecution>,
    i: int,
    k: int,
)
    requires
        s.log == log,
        0 <= i < s.step_calls.len(),
        0 <= k < runs.len(),
        runs[k].result.call_id@ == s.step_calls[i].id,
    ensures
        ({
            let after = with_results_logged(replied(s).log, runs, runs.len() as int);
            exists|j: int|
                0 <= j < session::history(after).len() && session::offers_call(
                    #[trigger] session::history(after)[j],
                    s.step_calls[i].id,
                )
        }),
{
    let id = s.step_calls[i].id;
    let told = replied(s).log;
    let after = with_results_logged(told, runs, runs.len() as int);
    lemma_results_are_logged(told, runs, runs.len() as int, k);
    lemma_calls_keep_prefix(recorded(s, false).log, s.step_calls, s.step_calls.len() as int);
    lemma_results_keep_prefix(told, runs, runs.len() as int);
    let a = log.len() as int;
    assert(recorded(s, false).log[a] == recorded(s, false).log.last());
    assert(session::lists_call(s.step_calls, id));
    assert(session::makes_call(after[a], id));
    assert(session::has_call(after, id));
    let at = (told.len() + k) as int;
    assert(session::is_result_for(after[at], id));
    let j = session::lemma_history_holds(after, after.len() as int, at);
    assert(session::is_result_block(session::history(after)[j].content[0], id));
    session::law_results_are_called(after, j, id);
}

proof fn lemma_calls_keep_prefix(log: Seq<SessionEventV>, calls: Seq<ToolCallV>, n: int)
    requires
        n >= 0,
    ensures
        with_calls_logged(log, calls, n).len() == log.len() + n,
        forall|x: int| 0 <= x < log.len() ==> #[trigger] with_calls_logged(log, calls, n)[x] == log[x],
    decreases n,
{
    if n > 0 {
        lemma_calls_keep_prefix(log, calls, n - 1);
    }
}

proof fn lemma_results_keep_prefix(log: Seq<SessionEventV>, runs: Seq<ToolExecution>, n: int)
    requires
        n >= 0,
    ensures
        with_results_logged(log, runs, n).len() == log.len() + n,
        forall|x: int|
            0 <= x < log.len() ==> #[trigger] with_results_logged(log, runs, n)[x] == log[x],
    decreases n,
{
    if n > 0 {
        lemma_results_keep_prefix(log, runs, n - 1);
    }
}

proof fn lemma_results_are_logged(log: Seq<SessionEventV>, runs: Seq<ToolExecution>, n: int, k: int)
    requires
        0 <= k < n <= runs.len(),
    ensures
        with_results_logged(log, runs, n).len() == log.len() + n,
        session::is_result_for(
            with_results_logged(log, runs, n)[log.len() + k],
            runs[k].result.call_id@,
        ),
    decreases n,
{
    lemma_results_keep_prefix(log, runs, n - 1);
    if k < n - 1 {
        lemma_results_are_logged(log, runs, n - 1, k);
    }
}

} // verus!
