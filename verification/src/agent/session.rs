//! The event-sourced session.
//!
//! A session is an append-only log of events. The history that a model sees is never
//! stored on its own: it is a projection of the log.

use crate::agent::seen;
use crate::agent::types;
use crate::agent::types::{
    ContentBlock, ContentBlockV, LlmMessage, LlmMessageV, LlmRole, TokenUsage, ToolCall, ToolCallV,
};
use crate::text;
use vstd::prelude::*;

verus! {

/// Why a turn ended.
#[derive(Debug, Clone, Copy, PartialEq, Eq, Structural)]
pub enum TurnEndReason {
    Completed,
    Blocked,
    Aborted,
    Error,
    MaxTokens,
    Interrupted,
}

/// A fact of a session.
#[derive(Debug, PartialEq, Eq)]
pub enum SessionEvent {
    TurnStart { turn: u32 },
    TurnEnd { turn: u32, reason: TurnEndReason },
    StepStart { turn: u32, step: u32 },
    StepEnd { turn: u32, step: u32 },
    /// A message of the user, or injected context.
    UserMessage { id: String, content: String, source: String },
    /// A whole message of the model.
    AssistantMessage {
        content: String,
        tool_calls: Vec<ToolCall>,
        usage: Option<TokenUsage>,
        interrupted: bool,
    },
    /// The start of a tool's run.
    ToolCall { call_id: String, name: String, arguments: String },
    /// The outcome of a tool's run; `call_id` pairs it with the assistant's call.
    ToolResult { call_id: String, content: String, is_error: bool },
    /// A summary that stands for the events numbered in `shadowed_seqs`.
    CompactionSummary { summary: String, shadowed_seqs: Vec<u64> },
}

pub enum SessionEventV {
    TurnStart { turn: u32 },
    TurnEnd { turn: u32, reason: TurnEndReason },
    StepStart { turn: u32, step: u32 },
    StepEnd { turn: u32, step: u32 },
    UserMessage { id: Seq<char>, content: Seq<char>, source: Seq<char> },
    AssistantMessage {
        content: Seq<char>,
        tool_calls: Seq<ToolCallV>,
        usage: Option<TokenUsage>,
        interrupted: bool,
    },
    ToolCall { call_id: Seq<char>, name: Seq<char>, arguments: Seq<char> },
    ToolResult { call_id: Seq<char>, content: Seq<char>, is_error: bool },
    CompactionSummary { summary: Seq<char>, shadowed_seqs: Seq<u64> },
}

impl View for SessionEvent {
    type V = SessionEventV;

    open spec fn view(&self) -> SessionEventV {
        match self {
            SessionEvent::TurnStart { turn } => SessionEventV::TurnStart { turn: *turn },
            SessionEvent::TurnEnd { turn, reason } => SessionEventV::TurnEnd {
                turn: *turn,
                reason: *reason,
            },
            SessionEvent::StepStart { turn, step } => SessionEventV::StepStart {
                turn: *turn,
                step: *step,
            },
            SessionEvent::StepEnd { turn, step } => SessionEventV::StepEnd {
                turn: *turn,
                step: *step,
            },
            SessionEvent::UserMessage { id, content, source } => SessionEventV::UserMessage {
                id: id@,
                content: content@,
                source: source@,
            },
            SessionEvent::AssistantMessage { content, tool_calls, usage, interrupted } => {
                SessionEventV::AssistantMessage {
                    content: content@,
                    tool_calls: types::calls_view(tool_calls@),
                    usage: *usage,
                    interrupted: *interrupted,
                }
            },
            SessionEvent::ToolCall { call_id, name, arguments } => SessionEventV::ToolCall {
                call_id: call_id@,
                name: name@,
                arguments: arguments@,
            },
            SessionEvent::ToolResult { call_id, content, is_error } => SessionEventV::ToolResult {
                call_id: call_id@,
                content: content@,
                is_error: *is_error,
            },
            SessionEvent::CompactionSummary { summary, shadowed_seqs } => {
                SessionEventV::CompactionSummary {
                    summary: summary@,
                    shadowed_seqs: shadowed_seqs@,
                }
            },
        }
    }
}

impl Clone for SessionEvent {
    fn clone(&self) -> (r: Self)
        ensures
            r@ == self@,
    {
        match self {
            SessionEvent::TurnStart { turn } => SessionEvent::TurnStart { turn: *turn },
            SessionEvent::TurnEnd { turn, reason } => SessionEvent::TurnEnd {
                turn: *turn,
                reason: *reason,
            },
            SessionEvent::StepStart { turn, step } => SessionEvent::StepStart {
                turn: *turn,
                step: *step,
            },
            SessionEvent::StepEnd { turn, step } => SessionEvent::StepEnd {
                turn: *turn,
                step: *step,
            },
            SessionEvent::UserMessage { id, content, source } => SessionEvent::UserMessage {
                id: id.clone(),
                content: content.clone(),
                source: source.clone(),
            },
            SessionEvent::AssistantMessage { content, tool_calls, usage, interrupted } => {
                SessionEvent::AssistantMessage {
                    content: content.clone(),
                    tool_calls: types::clone_calls(tool_calls),
                    usage: *usage,
                    interrupted: *interrupted,
                }
            },
            SessionEvent::ToolCall { call_id, name, arguments } => SessionEvent::ToolCall {
                call_id: call_id.clone(),
                name: name.clone(),
                arguments: arguments.clone(),
            },
            SessionEvent::ToolResult { call_id, content, is_error } => SessionEvent::ToolResult {
                call_id: call_id.clone(),
                content: content.clone(),
                is_error: *is_error,
            },
            SessionEvent::CompactionSummary { summary, shadowed_seqs } => {
                let seqs = shadowed_seqs.clone();
                assert(seqs@ =~= shadowed_seqs@);
                SessionEvent::CompactionSummary { summary: summary.clone(), shadowed_seqs: seqs }
            },
        }
    }
}

impl SessionEventV {
    /// The name under which the kind of event is stored and found.
    pub open spec fn name(self) -> Seq<char> {
        match self {
            SessionEventV::TurnStart { .. } => "turn_start"@,
            SessionEventV::TurnEnd { .. } => "turn_end"@,
            SessionEventV::StepStart { .. } => "step_start"@,
            SessionEventV::StepEnd { .. } => "step_end"@,
            SessionEventV::UserMessage { .. } => "user_message"@,
            SessionEventV::AssistantMessage { .. } => "assistant_message"@,
            SessionEventV::ToolCall { .. } => "tool_call"@,
            SessionEventV::ToolResult { .. } => "tool_result"@,
            SessionEventV::CompactionSummary { .. } => "compaction_summary"@,
        }
    }
}

impl SessionEvent {
    /// The name under which the kind of event is stored and found.
    pub fn kind_name(&self) -> (r: &'static str)
        ensures
            r@ == self@.name(),
    {
        match self {
            SessionEvent::TurnStart { .. } => "turn_start",
            SessionEvent::TurnEnd { .. } => "turn_end",
            SessionEvent::StepStart { .. } => "step_start",
            SessionEvent::StepEnd { .. } => "step_end",
            SessionEvent::UserMessage { .. } => "user_message",
            SessionEvent::AssistantMessage { .. } => "assistant_message",
            SessionEvent::ToolCall { .. } => "tool_call",
            SessionEvent::ToolResult { .. } => "tool_result",
            SessionEvent::CompactionSummary { .. } => "compaction_summary",
        }
    }
}

/// An event with its number.
#[derive(Debug, PartialEq, Eq)]
pub struct PersistedEvent {
    pub seq: u64,
    pub event: SessionEvent,
}

/// Whether the log holds a result for the call `id`.
pub open spec fn has_result(log: Seq<SessionEventV>, id: Seq<char>) -> bool {
    exists|i: int| 0 <= i < log.len() && is_result_for(#[trigger] log[i], id)
}

pub open spec fn is_result_for(e: SessionEventV, id: Seq<char>) -> bool {
    e matches SessionEventV::ToolResult { call_id, .. } && call_id == id
}

/// Whether an assistant message of the log makes the call `id`.
pub open spec fn has_call(log: Seq<SessionEventV>, id: Seq<char>) -> bool {
    exists|i: int| 0 <= i < log.len() && makes_call(#[trigger] log[i], id)
}

pub open spec fn makes_call(e: SessionEventV, id: Seq<char>) -> bool {
    e matches SessionEventV::AssistantMessage { tool_calls, .. } && lists_call(tool_calls, id)
}

pub open spec fn lists_call(calls: Seq<ToolCallV>, id: Seq<char>) -> bool {
    exists|j: int| 0 <= j < calls.len() && (#[trigger] calls[j]).id == id
}

/// The calls that the log holds a result for, as content blocks.
pub open spec fn answered_calls(log: Seq<SessionEventV>, calls: Seq<ToolCallV>) -> Seq<
    ContentBlockV,
>
    decreases calls.len(),
{
    if calls.len() == 0 {
        Seq::empty()
    } else {
        let before = answered_calls(log, calls.drop_last());
        if has_result(log, calls.last().id) {
            before.push(ContentBlockV::ToolCall(calls.last()))
        } else {
            before
        }
    }
}

/// The blocks of an assistant message in the history.
pub open spec fn assistant_blocks(
    log: Seq<SessionEventV>,
    content: Seq<char>,
    calls: Seq<ToolCallV>,
) -> Seq<ContentBlockV> {
    let text = if content.len() == 0 {
        Seq::<ContentBlockV>::empty()
    } else {
        seq![ContentBlockV::Text(content)]
    };
    text + answered_calls(log, calls)
}

/// What the model sees of one event. Calls without a result, results without a call
/// and messages without content are left out.
pub open spec fn projected(log: Seq<SessionEventV>, e: SessionEventV) -> Option<LlmMessageV> {
    match e {
        SessionEventV::UserMessage { content, .. } => Some(
            LlmMessageV { role: LlmRole::User, content: seq![ContentBlockV::Text(content)] },
        ),
        SessionEventV::AssistantMessage { content, tool_calls, .. } => {
            let blocks = assistant_blocks(log, content, tool_calls);
            if blocks.len() == 0 {
                None
            } else {
                Some(LlmMessageV { role: LlmRole::Assistant, content: blocks })
            }
        },
        SessionEventV::ToolResult { call_id, content, is_error } => if has_call(log, call_id) {
            Some(
                LlmMessageV {
                    role: LlmRole::Tool,
                    content: seq![
                        ContentBlockV::ToolResult { tool_call_id: call_id, content, is_error },
                    ],
                },
            )
        } else {
            None
        },
        _ => None,
    }
}

/// The projections of the first `n` events.
pub open spec fn history_of_first(log: Seq<SessionEventV>, n: int) -> Seq<LlmMessageV>
    decreases n,
{
    if n <= 0 {
        Seq::empty()
    } else {
        let before = history_of_first(log, n - 1);
        match projected(log, log[n - 1]) {
            Some(m) => before.push(m),
            None => before,
        }
    }
}

/// The history that the model sees.
pub open spec fn history(log: Seq<SessionEventV>) -> Seq<LlmMessageV> {
    history_of_first(log, log.len() as int)
}

/// The number of turns begun in the log.
pub open spec fn turns_begun(log: Seq<SessionEventV>) -> nat
    decreases log.len(),
{
    if log.len() == 0 {
        0
    } else if log.last() is TurnStart {
        turns_begun(log.drop_last()) + 1
    } else {
        turns_begun(log.drop_last())
    }
}

/// The number of steps begun in the log since the last turn began.
pub open spec fn steps_begun(log: Seq<SessionEventV>) -> nat
    decreases log.len(),
{
    if log.len() == 0 || log.last() is TurnStart {
        0
    } else if log.last() is StepStart {
        steps_begun(log.drop_last()) + 1
    } else {
        steps_begun(log.drop_last())
    }
}

/// The size of the text of the messages and of their calls, in bytes of UTF-8.
pub open spec fn history_bytes(messages: Seq<LlmMessageV>) -> nat
    decreases messages.len(),
{
    if messages.len() == 0 {
        0
    } else {
        history_bytes(messages.drop_last()) + message_bytes(messages.last())
    }
}

pub open spec fn message_bytes(m: LlmMessageV) -> nat {
    text::byte_len(types::text_of(m.content)) + calls_bytes(types::calls_of(m.content))
}

pub open spec fn calls_bytes(calls: Seq<ToolCallV>) -> nat
    decreases calls.len(),
{
    if calls.len() == 0 {
        0
    } else {
        calls_bytes(calls.drop_last()) + text::byte_len(calls.last().arguments) + text::byte_len(
            calls.last().name,
        )
    }
}

/// An event-sourced session.
#[derive(Debug)]
pub struct Session {
    id: String,
    events: Vec<PersistedEvent>,
    /// The history of the log, where `dirty` is false.
    derived: Vec<LlmMessage>,
    dirty: bool,
    current_turn: u32,
    current_step: u32,
}

impl Clone for Session {
    fn clone(&self) -> (r: Self)
        ensures
            r.log() == self.log(),
            r.name() == self.name(),
            r.cached() == self.cached(),
            self.wf() ==> r.wf(),
    {
        let mut events: Vec<PersistedEvent> = Vec::new();
        let mut i: usize = 0;
        while i < self.events.len()
            invariant
                i <= self.events.len(),
                events@.len() == i,
                forall|k: int|
                    0 <= k < i ==> (#[trigger] events@[k]).seq == self.events@[k].seq
                        && events@[k].event@ == self.events@[k].event@,
            decreases self.events.len() - i,
        {
            let e = &self.events[i];
            events.push(PersistedEvent { seq: e.seq, event: e.event.clone() });
            i += 1;
        }
        let r = Session {
            id: self.id.clone(),
            events,
            derived: types::clone_messages(&self.derived),
            dirty: self.dirty,
            current_turn: self.current_turn,
            current_step: self.current_step,
        };
        assert(r.log() =~= self.log());
        r
    }
}

impl Session {
    /// The events of the log, in the order in which they were appended.
    pub closed spec fn log(&self) -> Seq<SessionEventV> {
        Seq::new(self.events@.len(), |i: int| self.events@[i].event@)
    }

    pub closed spec fn name(&self) -> Seq<char> {
        self.id@
    }

    /// The history as of the last call of `derive_history`.
    pub closed spec fn cached(&self) -> Seq<LlmMessageV> {
        types::messages_view(self.derived@)
    }

    pub closed spec fn wf(&self) -> bool {
        &&& forall|i: int| 0 <= i < self.events@.len() ==> (#[trigger] self.events@[i]).seq == i
        &&& self.current_turn == turns_begun(self.log())
        &&& self.current_step == steps_begun(self.log())
        &&& !self.dirty ==> types::messages_view(self.derived@) == history(self.log())
    }

    pub fn new(id: String) -> (r: Self)
        ensures
            r.wf(),
            r.name() == id@,
            r.log() == Seq::<SessionEventV>::empty(),
            r.cached() == Seq::<LlmMessageV>::empty(),
    {
        let r = Session {
            id,
            events: Vec::new(),
            derived: Vec::new(),
            dirty: true,
            current_turn: 0,
            current_step: 0,
        };
        assert(r.log() == Seq::<SessionEventV>::empty());
        assert(r.cached() == Seq::<LlmMessageV>::empty());
        r
    }

    pub fn id(&self) -> (r: &str)
        ensures
            r@ == self.name(),
    {
        &self.id
    }

    /// Appends an event and returns its number, which is the count of the events before it.
    pub fn append(&mut self, ev: SessionEvent) -> (seq: u64)
        requires
            old(self).wf(),
            ev is TurnStart ==> turns_begun(old(self).log()) < u32::MAX,
            ev is StepStart ==> steps_begun(old(self).log()) < u32::MAX,
        ensures
            final(self).wf(),
            seq == old(self).log().len(),
            final(self).log() == old(self).log().push(ev@),
            final(self).name() == old(self).name(),
            final(self).cached() == old(self).cached(),
    {
        let seq = self.events.len() as u64;
        if let SessionEvent::StepStart { .. } = &ev {
            self.current_step = self.current_step + 1;
        }
        if let SessionEvent::TurnStart { .. } = &ev {
            self.current_turn = self.current_turn + 1;
            self.current_step = 0;
        }
        self.events.push(PersistedEvent { seq, event: ev });
        self.dirty = true;
        assert(self.log() == old(self).log().push(ev@));
        assert(self.log().drop_last() == old(self).log());
        seq
    }

    /// The log; each event's number is its index.
    pub fn events(&self) -> (r: &[PersistedEvent])
        requires
            self.wf(),
        ensures
            r@.len() == self.log().len(),
            forall|i: int|
                0 <= i < r@.len() ==> (#[trigger] r@[i]).seq == i && r@[i].event@ == self.log()[i],
    {
        self.events.as_slice()
    }

    pub fn current_turn(&self) -> (r: u32)
        requires
            self.wf(),
        ensures
            r == turns_begun(self.log()),
    {
        self.current_turn
    }

    pub fn current_step(&self) -> (r: u32)
        requires
            self.wf(),
        ensures
            r == steps_begun(self.log()),
    {
        self.current_step
    }

    fn result_logged(&self, id: &String) -> (r: bool)
        ensures
            r == has_result(self.log(), id@),
    {
        let mut i: usize = 0;
        while i < self.events.len()
            invariant
                i <= self.events.len(),
                forall|k: int| 0 <= k < i ==> !is_result_for(#[trigger] self.log()[k], id@),
            decreases self.events.len() - i,
        {
            assert(self.log()[i as int] == self.events@[i as int].event@);
            if let SessionEvent::ToolResult { call_id, .. } = &self.events[i].event {
                if *call_id == *id {
                    assert(is_result_for(self.log()[i as int], id@));
                    return true;
                }
            }
            i += 1;
        }
        false
    }

    fn call_logged(&self, id: &String) -> (r: bool)
        ensures
            r == has_call(self.log(), id@),
    {
        let mut i: usize = 0;
        while i < self.events.len()
            invariant
                i <= self.events.len(),
                forall|k: int| 0 <= k < i ==> !makes_call(#[trigger] self.log()[k], id@),
            decreases self.events.len() - i,
        {
            assert(self.log()[i as int] == self.events@[i as int].event@);
            if let SessionEvent::AssistantMessage { tool_calls, .. } = &self.events[i].event {
                if calls_list(tool_calls, id) {
                    assert(makes_call(self.log()[i as int], id@));
                    return true;
                }
            }
            i += 1;
        }
        false
    }

    fn answered(&self, calls: &Vec<ToolCall>, blocks: &mut Vec<ContentBlock>)
        ensures
            types::blocks_view(final(blocks)@) == types::blocks_view(old(blocks)@)
                + answered_calls(self.log(), types::calls_view(calls@)),
    {
        let ghost start = types::blocks_view(blocks@);
        let ghost cv = types::calls_view(calls@);
        let mut i: usize = 0;
        assert(answered_calls(self.log(), cv.take(0)) == Seq::<ContentBlockV>::empty());
        while i < calls.len()
            invariant
                i <= calls.len(),
                cv == types::calls_view(calls@),
                types::blocks_view(blocks@) == start + answered_calls(self.log(), cv.take(i as int)),
            decreases calls.len() - i,
        {
            assert(cv.take(i + 1).drop_last() == cv.take(i as int));
            let ghost before = blocks@;
            if self.result_logged(&calls[i].id) {
                let b = ContentBlock::ToolCall(calls[i].clone());
                blocks.push(b);
                assert(types::blocks_view(blocks@) =~= types::blocks_view(before).push(b@));
            }
            i += 1;
        }
        assert(cv.take(i as int) == cv);
    }

    fn project(&self, e: &SessionEvent) -> (r: Option<LlmMessage>)
        ensures
            match r {
                Some(m) => projected(self.log(), e@) == Some(m@),
                None => projected(self.log(), e@) is None,
            },
    {
        match e {
            SessionEvent::UserMessage { content, .. } => {
                Some(LlmMessage::text(LlmRole::User, content.clone()))
            },
            SessionEvent::AssistantMessage { content, tool_calls, .. } => {
                let mut blocks: Vec<ContentBlock> = Vec::new();
                if !content.as_str().is_empty() {
                    blocks.push(ContentBlock::Text(content.clone()));
                }
                assert(types::blocks_view(blocks@) == (if content@.len() == 0 {
                    Seq::<ContentBlockV>::empty()
                } else {
                    seq![ContentBlockV::Text(content@)]
                }));
                self.answered(tool_calls, &mut blocks);
                if blocks.is_empty() {
                    None
                } else {
                    Some(LlmMessage { role: LlmRole::Assistant, content: blocks })
                }
            },
            SessionEvent::ToolResult { call_id, content, is_error } => {
                if self.call_logged(call_id) {
                    let mut blocks: Vec<ContentBlock> = Vec::new();
                    blocks.push(
                        ContentBlock::ToolResult {
                            tool_call_id: call_id.clone(),
                            content: content.clone(),
                            is_error: *is_error,
                        },
                    );
                    assert(types::blocks_view(blocks@) == seq![
                        ContentBlockV::ToolResult {
                            tool_call_id: call_id@,
                            content: content@,
                            is_error: *is_error,
                        },
                    ]);
                    Some(LlmMessage { role: LlmRole::Tool, content: blocks })
                } else {
                    None
                }
            },
            _ => None,
        }
    }

    /// The history that the model sees. It is kept until the next event is appended.
    pub fn derive_history(&mut self) -> (r: Vec<LlmMessage>)
        requires
            old(self).wf(),
        ensures
            final(self).wf(),
            types::messages_view(r@) == history(old(self).log()),
            seen::is_seen(old(self).log(), types::messages_view(r@)),
            final(self).log() == old(self).log(),
            final(self).name() == old(self).name(),
            final(self).cached() == history(old(self).log()),
    {
        proof {
            seen::law_the_model_sees_the_log(self.log());
        }
        if !self.dirty && self.derived.len() > 0 {
            return types::clone_messages(&self.derived);
        }
        let mut out: Vec<LlmMessage> = Vec::new();
        let mut i: usize = 0;
        while i < self.events.len()
            invariant
                i <= self.events.len(),
                *self == *old(self),
                types::messages_view(out@) == history_of_first(self.log(), i as int),
            decreases self.events.len() - i,
        {
            assert(self.log()[i as int] == self.events@[i as int].event@);
            let ghost before = out@;
            if let Some(m) = self.project(&self.events[i].event) {
                out.push(m);
                assert(types::messages_view(out@) =~= types::messages_view(before).push(m@));
            }
            i += 1;
        }
        self.derived = types::clone_messages(&out);
        self.dirty = false;
        assert(self.log() == old(self).log());
        out
    }

    /// The size of the history as of the last call of `derive_history`.
    pub fn derived_chars(&self) -> (r: usize)
        requires
            history_bytes(self.cached()) <= usize::MAX,
        ensures
            r == history_bytes(self.cached()),
    {
        let ghost ms = self.cached();
        let mut total: usize = 0;
        let mut i: usize = 0;
        while i < self.derived.len()
            invariant
                i <= self.derived.len(),
                ms == self.cached(),
                history_bytes(ms) <= usize::MAX,
                total == history_bytes(ms.take(i as int)),
            decreases self.derived.len() - i,
        {
            proof {
                lemma_history_bytes_take(ms, i + 1);
                assert(ms.take(i + 1).drop_last() == ms.take(i as int));
                assert(ms.take(i + 1).last() == self.derived@[i as int]@);
            }
            total = total + message_size(&self.derived[i]);
            i += 1;
        }
        assert(ms.take(i as int) == ms);
        total
    }
}

proof fn lemma_history_bytes_take(ms: Seq<LlmMessageV>, n: int)
    requires
        0 <= n <= ms.len(),
    ensures
        history_bytes(ms.take(n)) <= history_bytes(ms),
    decreases ms.len(),
{
    if n < ms.len() {
        lemma_history_bytes_take(ms.drop_last(), n);
        assert(ms.drop_last().take(n) == ms.take(n));
    } else {
        assert(ms.take(n) == ms);
    }
}

proof fn lemma_calls_bytes_take(cs: Seq<ToolCallV>, n: int)
    requires
        0 <= n <= cs.len(),
    ensures
        calls_bytes(cs.take(n)) <= calls_bytes(cs),
    decreases cs.len(),
{
    if n < cs.len() {
        lemma_calls_bytes_take(cs.drop_last(), n);
        assert(cs.drop_last().take(n) == cs.take(n));
    } else {
        assert(cs.take(n) == cs);
    }
}

fn message_size(m: &LlmMessage) -> (r: usize)
    requires
        message_bytes(m@) <= usize::MAX,
    ensures
        r == message_bytes(m@),
{
    let text = m.plain_text();
    let calls = m.tool_calls();
    let ghost cs = types::calls_of(m@.content);
    let mut total: usize = text.as_str().len();
    let mut i: usize = 0;
    while i < calls.len()
        invariant
            i <= calls.len(),
            calls@.len() == cs.len(),
            forall|k: int| 0 <= k < calls@.len() ==> (#[trigger] calls@[k])@ == cs[k],
            message_bytes(m@) <= usize::MAX,
            message_bytes(m@) == text::byte_len(types::text_of(m@.content)) + calls_bytes(cs),
            total == text::byte_len(types::text_of(m@.content)) + calls_bytes(cs.take(i as int)),
        decreases calls.len() - i,
    {
        proof {
            lemma_calls_bytes_take(cs, i + 1);
            assert(cs.take(i + 1).drop_last() == cs.take(i as int));
            assert(calls@[i as int]@ == cs[i as int]);
        }
        total = total + calls[i].arguments.as_str().len() + calls[i].name.as_str().len();
        i += 1;
    }
    assert(cs.take(i as int) == cs);
    total
}

fn calls_list(calls: &Vec<ToolCall>, id: &String) -> (r: bool)
    ensures
        r == lists_call(types::calls_view(calls@), id@),
{
    let mut i: usize = 0;
    while i < calls.len()
        invariant
            i <= calls.len(),
            forall|k: int| 0 <= k < i ==> (#[trigger] types::calls_view(calls@)[k]).id != id@,
        decreases calls.len() - i,
    {
        if calls[i].id == *id {
            assert(types::calls_view(calls@)[i as int].id == id@);
            return true;
        }
        i += 1;
    }
    false
}

/// Whether an assistant message makes the call `id`.
pub open spec fn offers_call(m: LlmMessageV, id: Seq<char>) -> bool {
    m.role == LlmRole::Assistant && exists|k: int|
        0 <= k < m.content.len() && is_call_block(#[trigger] m.content[k], id)
}

pub open spec fn is_call_block(b: ContentBlockV, id: Seq<char>) -> bool {
    b matches ContentBlockV::ToolCall(c) && c.id == id
}

/// Whether a tool message holds the result of the call `id`.
pub open spec fn answers_call(m: LlmMessageV, id: Seq<char>) -> bool {
    m.role == LlmRole::Tool && exists|k: int|
        0 <= k < m.content.len() && is_result_block(#[trigger] m.content[k], id)
}

pub open spec fn is_result_block(b: ContentBlockV, id: Seq<char>) -> bool {
    b matches ContentBlockV::ToolResult { tool_call_id, .. } && tool_call_id == id
}

proof fn lemma_history_source(log: Seq<SessionEventV>, n: int, k: int) -> (e: int)
    requires
        0 <= n <= log.len(),
        0 <= k < history_of_first(log, n).len(),
    ensures
        0 <= e < n,
        projected(log, log[e]) == Some(history_of_first(log, n)[k]),
    decreases n,
{
    let before = history_of_first(log, n - 1);
    if k < before.len() {
        lemma_history_source(log, n - 1, k)
    } else {
        n - 1
    }
}

pub(crate) proof fn lemma_history_holds(log: Seq<SessionEventV>, n: int, e: int) -> (k: int)
    requires
        0 <= e < n <= log.len(),
        projected(log, log[e]) is Some,
    ensures
        0 <= k < history_of_first(log, n).len(),
        projected(log, log[e]) == Some(history_of_first(log, n)[k]),
    decreases n,
{
    let before = history_of_first(log, n - 1);
    if e == n - 1 {
        before.len() as int
    } else {
        lemma_history_holds(log, n - 1, e)
    }
}

proof fn lemma_answered_source(log: Seq<SessionEventV>, calls: Seq<ToolCallV>, k: int) -> (j: int)
    requires
        0 <= k < answered_calls(log, calls).len(),
    ensures
        0 <= j < calls.len(),
        answered_calls(log, calls)[k] == ContentBlockV::ToolCall(calls[j]),
        has_result(log, calls[j].id),
    decreases calls.len(),
{
    let before = answered_calls(log, calls.drop_last());
    if k < before.len() {
        lemma_answered_source(log, calls.drop_last(), k)
    } else {
        calls.len() - 1
    }
}

proof fn lemma_answered_holds(log: Seq<SessionEventV>, calls: Seq<ToolCallV>, j: int) -> (k: int)
    requires
        0 <= j < calls.len(),
        has_result(log, calls[j].id),
    ensures
        0 <= k < answered_calls(log, calls).len(),
        answered_calls(log, calls)[k] == ContentBlockV::ToolCall(calls[j]),
    decreases calls.len(),
{
    let before = answered_calls(log, calls.drop_last());
    if j == calls.len() - 1 {
        before.len() as int
    } else {
        lemma_answered_holds(log, calls.drop_last(), j)
    }
}

/// What the model sees was recorded: each message of the history is what an event of the log
/// says.
pub proof fn law_what_the_model_sees_was_recorded(log: Seq<SessionEventV>, i: int)
    requires
        0 <= i < history(log).len(),
    ensures
        exists|e: int|
            0 <= e < log.len() && projected(log, #[trigger] log[e]) == Some(history(log)[i]),
{
    let e = lemma_history_source(log, log.len() as int, i);
    assert(projected(log, log[e]) == Some(history(log)[i]));
}

/// The model sees what was recorded in the order in which it was recorded.
pub proof fn law_history_keeps_the_order(log: Seq<SessionEventV>, i: int, j: int)
    requires
        0 <= i < j < history(log).len(),
    ensures
        exists|a: int, b: int|
            0 <= a < b < log.len() && projected(log, #[trigger] log[a]) == Some(history(log)[i])
                && projected(log, #[trigger] log[b]) == Some(history(log)[j]),
{
    let (a, b) = lemma_history_sources(log, log.len() as int, i, j);
    assert(projected(log, log[a]) == Some(history(log)[i]));
    assert(projected(log, log[b]) == Some(history(log)[j]));
}

proof fn lemma_history_sources(log: Seq<SessionEventV>, n: int, i: int, j: int) -> (r: (int, int))
    requires
        0 <= n <= log.len(),
        0 <= i < j < history_of_first(log, n).len(),
    ensures
        0 <= r.0 < r.1 < n,
        projected(log, log[r.0]) == Some(history_of_first(log, n)[i]),
        projected(log, log[r.1]) == Some(history_of_first(log, n)[j]),
    decreases n,
{
    let before = history_of_first(log, n - 1);
    if j < before.len() {
        lemma_history_sources(log, n - 1, i, j)
    } else {
        (lemma_history_source(log, n - 1, i), n - 1)
    }
}

/// Every tool call that the model sees in the history has its result in the history.
pub proof fn law_calls_are_answered(log: Seq<SessionEventV>, i: int, id: Seq<char>)
    requires
        0 <= i < history(log).len(),
        offers_call(history(log)[i], id),
    ensures
        exists|j: int| 0 <= j < history(log).len() && answers_call(#[trigger] history(log)[j], id),
{
    let n = log.len() as int;
    let e = lemma_history_source(log, n, i);
    let m = history(log)[i];
    let k = choose|k: int| 0 <= k < m.content.len() && is_call_block(#[trigger] m.content[k], id);
    match log[e] {
        SessionEventV::AssistantMessage { content, tool_calls, .. } => {
            let answered = answered_calls(log, tool_calls);
            let at = if content.len() == 0 {
                k
            } else {
                k - 1
            };
            assert(m.content[k] == answered[at]);
            let c = lemma_answered_source(log, tool_calls, at);
            assert(makes_call(log[e], id));
            let r = choose|r: int| 0 <= r < log.len() && is_result_for(#[trigger] log[r], id);
            assert(has_call(log, id));
            let j = lemma_history_holds(log, n, r);
            assert(is_result_block(history(log)[j].content[0], id));
            assert(answers_call(history(log)[j], id));
        },
        _ => {},
    }
}

/// Every tool result that the model sees in the history has its call in the history.
pub proof fn law_results_are_called(log: Seq<SessionEventV>, i: int, id: Seq<char>)
    requires
        0 <= i < history(log).len(),
        answers_call(history(log)[i], id),
    ensures
        exists|j: int| 0 <= j < history(log).len() && offers_call(#[trigger] history(log)[j], id),
{
    let n = log.len() as int;
    let e = lemma_history_source(log, n, i);
    let m = history(log)[i];
    let k = choose|k: int| 0 <= k < m.content.len() && is_result_block(#[trigger] m.content[k], id);
    match log[e] {
        SessionEventV::ToolResult { call_id, .. } => {
            assert(k == 0 && call_id == id);
            assert(is_result_for(log[e], id));
            assert(has_result(log, id));
            let a = choose|a: int| 0 <= a < log.len() && makes_call(#[trigger] log[a], id);
            match log[a] {
                SessionEventV::AssistantMessage { content, tool_calls, .. } => {
                    let c = choose|c: int|
                        0 <= c < tool_calls.len() && (#[trigger] tool_calls[c]).id == id;
                    let at = lemma_answered_holds(log, tool_calls, c);
                    let blocks = assistant_blocks(log, content, tool_calls);
                    let b = if content.len() == 0 {
                        at
                    } else {
                        at + 1
                    };
                    assert(blocks[b] == ContentBlockV::ToolCall(tool_calls[c]));
                    let j = lemma_history_holds(log, n, a);
                    assert(is_call_block(history(log)[j].content[b], id));
                    assert(offers_call(history(log)[j], id));
                },
                _ => {},
            }
        },
        _ => {},
    }
}

/// No message of the history is empty, and none is a system message.
pub proof fn law_history_messages_have_content(log: Seq<SessionEventV>, i: int)
    requires
        0 <= i < history(log).len(),
    ensures
        history(log)[i].content.len() > 0,
        history(log)[i].role != LlmRole::System,
{
    let e = lemma_history_source(log, log.len() as int, i);
}

/// Events that the model does not see leave the history as it was.
pub proof fn law_bookkeeping_is_invisible(log: Seq<SessionEventV>, e: SessionEventV)
    requires
        !(e is UserMessage || e is AssistantMessage || e is ToolResult),
    ensures
        history(log.push(e)) == history(log),
{
    let all = log.push(e);
    lemma_same_pairs(log, e);
    lemma_history_prefix(log, e, log.len() as int);
    assert(history_of_first(all, all.len() as int) == history_of_first(all, log.len() as int));
}

proof fn lemma_same_pairs(log: Seq<SessionEventV>, e: SessionEventV)
    requires
        !(e is AssistantMessage || e is ToolResult),
    ensures
        forall|id: Seq<char>| has_result(log.push(e), id) == has_result(log, id),
        forall|id: Seq<char>| has_call(log.push(e), id) == has_call(log, id),
{
    let all = log.push(e);
    assert forall|id: Seq<char>| has_result(all, id) == has_result(log, id) by {
        if has_result(log, id) {
            let i = choose|i: int| 0 <= i < log.len() && is_result_for(#[trigger] log[i], id);
            assert(is_result_for(all[i], id));
        }
        if has_result(all, id) {
            let i = choose|i: int| 0 <= i < all.len() && is_result_for(#[trigger] all[i], id);
            assert(is_result_for(log[i], id));
        }
    }
    assert forall|id: Seq<char>| has_call(all, id) == has_call(log, id) by {
        if has_call(log, id) {
            let i = choose|i: int| 0 <= i < log.len() && makes_call(#[trigger] log[i], id);
            assert(makes_call(all[i], id));
        }
        if has_call(all, id) {
            let i = choose|i: int| 0 <= i < all.len() && makes_call(#[trigger] all[i], id);
            assert(makes_call(log[i], id));
        }
    }
}

proof fn lemma_same_answered(log: Seq<SessionEventV>, e: SessionEventV, calls: Seq<ToolCallV>)
    requires
        forall|id: Seq<char>| has_result(log.push(e), id) == has_result(log, id),
    ensures
        answered_calls(log.push(e), calls) == answered_calls(log, calls),
    decreases calls.len(),
{
    if calls.len() > 0 {
        lemma_same_answered(log, e, calls.drop_last());
    }
}

proof fn lemma_history_prefix(log: Seq<SessionEventV>, e: SessionEventV, n: int)
    requires
        0 <= n <= log.len(),
        forall|id: Seq<char>| has_result(log.push(e), id) == has_result(log, id),
        forall|id: Seq<char>| has_call(log.push(e), id) == has_call(log, id),
    ensures
        history_of_first(log.push(e), n) == history_of_first(log, n),
    decreases n,
{
    if n > 0 {
        lemma_history_prefix(log, e, n - 1);
        match log[n - 1] {
            SessionEventV::AssistantMessage { tool_calls, .. } => {
                lemma_same_answered(log, e, tool_calls);
            },
            _ => {},
        }
        assert(projected(log.push(e), log[n - 1]) == projected(log, log[n - 1]));
    }
}

} // verus!
