//! Messages, content blocks, stream events and errors that no provider's protocol
//! shapes.
//!
//! Each type that holds text has a view in which the text is a `Seq<char>`; the
//! contracts speak of those views.

use crate::text;
use vstd::prelude::*;

verus! {

/// A tool call that the model made; `arguments` is the JSON text as the model wrote it.
#[derive(Debug, PartialEq, Eq)]
pub struct ToolCall {
    /// Pairs the call with the `tool_call_id` of its result.
    pub id: String,
    pub name: String,
    pub arguments: String,
}

pub struct ToolCallV {
    pub id: Seq<char>,
    pub name: Seq<char>,
    pub arguments: Seq<char>,
}

impl View for ToolCall {
    type V = ToolCallV;

    open spec fn view(&self) -> ToolCallV {
        ToolCallV { id: self.id@, name: self.name@, arguments: self.arguments@ }
    }
}

impl Clone for ToolCall {
    fn clone(&self) -> (r: Self)
        ensures
            r == *self,
    {
        ToolCall {
            id: self.id.clone(),
            name: self.name.clone(),
            arguments: self.arguments.clone(),
        }
    }
}

pub open spec fn calls_view(calls: Seq<ToolCall>) -> Seq<ToolCallV> {
    Seq::new(calls.len(), |i: int| calls[i]@)
}

pub fn clone_calls(calls: &Vec<ToolCall>) -> (r: Vec<ToolCall>)
    ensures
        r@ == calls@,
{
    let mut r: Vec<ToolCall> = Vec::new();
    let mut i: usize = 0;
    while i < calls.len()
        invariant
            i <= calls.len(),
            r@ == calls@.take(i as int),
        decreases calls.len() - i,
    {
        r.push(calls[i].clone());
        i += 1;
    }
    r
}

/// The role of a message.
#[derive(Debug, Clone, Copy, PartialEq, Eq, Structural)]
pub enum LlmRole {
    System,
    User,
    Assistant,
    Tool,
}

impl LlmRole {
    pub open spec fn name(self) -> Seq<char> {
        match self {
            LlmRole::System => "system"@,
            LlmRole::User => "user"@,
            LlmRole::Assistant => "assistant"@,
            LlmRole::Tool => "tool"@,
        }
    }

    pub fn as_str(&self) -> (r: &'static str)
        ensures
            r@ == self.name(),
    {
        match self {
            LlmRole::System => "system",
            LlmRole::User => "user",
            LlmRole::Assistant => "assistant",
            LlmRole::Tool => "tool",
        }
    }
}

/// A block of a message's content.
#[derive(Debug, PartialEq, Eq)]
pub enum ContentBlock {
    Text(String),
    ToolCall(ToolCall),
    /// `tool_call_id` pairs the result with a `ToolCall` of an assistant message.
    ToolResult { tool_call_id: String, content: String, is_error: bool },
}

pub enum ContentBlockV {
    Text(Seq<char>),
    ToolCall(ToolCallV),
    ToolResult { tool_call_id: Seq<char>, content: Seq<char>, is_error: bool },
}

impl View for ContentBlock {
    type V = ContentBlockV;

    open spec fn view(&self) -> ContentBlockV {
        match self {
            ContentBlock::Text(t) => ContentBlockV::Text(t@),
            ContentBlock::ToolCall(c) => ContentBlockV::ToolCall(c@),
            ContentBlock::ToolResult { tool_call_id, content, is_error } => {
                ContentBlockV::ToolResult {
                    tool_call_id: tool_call_id@,
                    content: content@,
                    is_error: *is_error,
                }
            },
        }
    }
}

impl Clone for ContentBlock {
    fn clone(&self) -> (r: Self)
        ensures
            r == *self,
    {
        match self {
            ContentBlock::Text(t) => ContentBlock::Text(t.clone()),
            ContentBlock::ToolCall(c) => ContentBlock::ToolCall(c.clone()),
            ContentBlock::ToolResult { tool_call_id, content, is_error } => {
                ContentBlock::ToolResult {
                    tool_call_id: tool_call_id.clone(),
                    content: content.clone(),
                    is_error: *is_error,
                }
            },
        }
    }
}

pub open spec fn blocks_view(blocks: Seq<ContentBlock>) -> Seq<ContentBlockV> {
    Seq::new(blocks.len(), |i: int| blocks[i]@)
}

/// One message.
#[derive(Debug, PartialEq, Eq)]
pub struct LlmMessage {
    pub role: LlmRole,
    pub content: Vec<ContentBlock>,
}

pub struct LlmMessageV {
    pub role: LlmRole,
    pub content: Seq<ContentBlockV>,
}

impl View for LlmMessage {
    type V = LlmMessageV;

    open spec fn view(&self) -> LlmMessageV {
        LlmMessageV { role: self.role, content: blocks_view(self.content@) }
    }
}

impl Clone for LlmMessage {
    fn clone(&self) -> (r: Self)
        ensures
            r@ == self@,
    {
        let mut content: Vec<ContentBlock> = Vec::new();
        let mut i: usize = 0;
        while i < self.content.len()
            invariant
                i <= self.content.len(),
                content@ == self.content@.take(i as int),
            decreases self.content.len() - i,
        {
            content.push(self.content[i].clone());
            i += 1;
        }
        assert(content@ == self.content@);
        LlmMessage { role: self.role, content }
    }
}

pub open spec fn messages_view(messages: Seq<LlmMessage>) -> Seq<LlmMessageV> {
    Seq::new(messages.len(), |i: int| messages[i]@)
}

pub fn clone_messages(messages: &Vec<LlmMessage>) -> (r: Vec<LlmMessage>)
    ensures
        messages_view(r@) == messages_view(messages@),
{
    let mut r: Vec<LlmMessage> = Vec::new();
    let mut i: usize = 0;
    while i < messages.len()
        invariant
            i <= messages.len(),
            messages_view(r@) == messages_view(messages@).take(i as int),
        decreases messages.len() - i,
    {
        let ghost before = r@;
        let m = messages[i].clone();
        r.push(m);
        assert(messages_view(r@) =~= messages_view(before).push(m@));
        i += 1;
    }
    assert(messages_view(messages@).take(i as int) == messages_view(messages@));
    r
}

/// The text of all text blocks, in order.
pub open spec fn text_of(blocks: Seq<ContentBlockV>) -> Seq<char>
    decreases blocks.len(),
{
    if blocks.len() == 0 {
        Seq::empty()
    } else {
        let before = text_of(blocks.drop_last());
        match blocks.last() {
            ContentBlockV::Text(t) => before + t,
            _ => before,
        }
    }
}

/// The tool calls among the blocks, in order.
pub open spec fn calls_of(blocks: Seq<ContentBlockV>) -> Seq<ToolCallV>
    decreases blocks.len(),
{
    if blocks.len() == 0 {
        Seq::empty()
    } else {
        let before = calls_of(blocks.drop_last());
        match blocks.last() {
            ContentBlockV::ToolCall(c) => before.push(c),
            _ => before,
        }
    }
}

impl LlmMessage {
    /// A message of one text block.
    pub fn text(role: LlmRole, content: String) -> (r: Self)
        ensures
            r.role == role,
            r.content@ == seq![ContentBlock::Text(content)],
            r@ == (LlmMessageV { role, content: seq![ContentBlockV::Text(content@)] }),
    {
        let mut blocks: Vec<ContentBlock> = Vec::new();
        blocks.push(ContentBlock::Text(content));
        assert(blocks@ == seq![ContentBlock::Text(content)]);
        assert(blocks_view(blocks@) == seq![ContentBlockV::Text(content@)]);
        LlmMessage { role, content: blocks }
    }

    /// The text of the message: its text blocks, one behind the other.
    pub fn plain_text(&self) -> (r: String)
        ensures
            r@ == text_of(self@.content),
    {
        let mut s = String::new();
        let mut i: usize = 0;
        while i < self.content.len()
            invariant
                i <= self.content.len(),
                s@ == text_of(self@.content.take(i as int)),
            decreases self.content.len() - i,
        {
            assert(self@.content.take(i + 1).drop_last() == self@.content.take(i as int));
            if let ContentBlock::Text(t) = &self.content[i] {
                s.push_str(t);
            }
            i += 1;
        }
        assert(self@.content.take(i as int) == self@.content);
        s
    }

    /// The tool calls that the message carries.
    pub fn tool_calls(&self) -> (r: Vec<&ToolCall>)
        ensures
            r@.len() == calls_of(self@.content).len(),
            forall|i: int| 0 <= i < r@.len() ==> (#[trigger] r@[i])@ == calls_of(self@.content)[i],
    {
        let mut r: Vec<&ToolCall> = Vec::new();
        let mut i: usize = 0;
        while i < self.content.len()
            invariant
                i <= self.content.len(),
                r@.len() == calls_of(self@.content.take(i as int)).len(),
                forall|k: int|
                    0 <= k < r@.len() ==> (#[trigger] r@[k])@ == calls_of(
                        self@.content.take(i as int),
                    )[k],
            decreases self.content.len() - i,
        {
            assert(self@.content.take(i + 1).drop_last() == self@.content.take(i as int));
            if let ContentBlock::ToolCall(c) = &self.content[i] {
                r.push(c);
            }
            i += 1;
        }
        assert(self@.content.take(i as int) == self@.content);
        r
    }
}

/// Token counts that a provider reports.
#[derive(Debug, Clone, Copy, PartialEq, Eq, Structural)]
pub struct TokenUsage {
    pub prompt_tokens: u32,
    pub completion_tokens: u32,
    pub total_tokens: u32,
    /// Input tokens read from the provider's cache.
    pub cached_input_tokens: u32,
    /// Input tokens written to the provider's cache.
    pub cache_creation_input_tokens: u32,
}

impl Default for TokenUsage {
    fn default() -> (r: Self)
        ensures
            r == (TokenUsage {
                prompt_tokens: 0,
                completion_tokens: 0,
                total_tokens: 0,
                cached_input_tokens: 0,
                cache_creation_input_tokens: 0,
            }),
    {
        TokenUsage {
            prompt_tokens: 0,
            completion_tokens: 0,
            total_tokens: 0,
            cached_input_tokens: 0,
            cache_creation_input_tokens: 0,
        }
    }
}

impl TokenUsage {
    pub fn is_empty(&self) -> (r: bool)
        ensures
            r == (self.prompt_tokens == 0 && self.completion_tokens == 0 && self.total_tokens == 0),
    {
        self.prompt_tokens == 0 && self.completion_tokens == 0 && self.total_tokens == 0
    }
}

/// Why a stream ended.
#[derive(Debug, PartialEq, Eq)]
pub enum FinishReason {
    Stop,
    ToolCalls,
    Length,
    ContentFilter,
    Other(String),
}

pub enum FinishReasonV {
    Stop,
    ToolCalls,
    Length,
    ContentFilter,
    Other(Seq<char>),
}

impl View for FinishReason {
    type V = FinishReasonV;

    open spec fn view(&self) -> FinishReasonV {
        match self {
            FinishReason::Stop => FinishReasonV::Stop,
            FinishReason::ToolCalls => FinishReasonV::ToolCalls,
            FinishReason::Length => FinishReasonV::Length,
            FinishReason::ContentFilter => FinishReasonV::ContentFilter,
            FinishReason::Other(s) => FinishReasonV::Other(s@),
        }
    }
}

impl Clone for FinishReason {
    fn clone(&self) -> (r: Self)
        ensures
            r == *self,
    {
        match self {
            FinishReason::Stop => FinishReason::Stop,
            FinishReason::ToolCalls => FinishReason::ToolCalls,
            FinishReason::Length => FinishReason::Length,
            FinishReason::ContentFilter => FinishReason::ContentFilter,
            FinishReason::Other(s) => FinishReason::Other(s.clone()),
        }
    }
}

/// What an adapter hands to the loop; tool calls arrive whole and in model order.
#[derive(Debug, PartialEq, Eq)]
pub enum StreamEvent {
    TextDelta(String),
    /// Reasoning text, which never becomes part of a message.
    ReasoningDelta(String),
    /// `index` is the number that the model gave the call.
    ToolCall { index: usize, call: ToolCall },
    Usage(TokenUsage),
    Finish(FinishReason),
}

pub enum StreamEventV {
    TextDelta(Seq<char>),
    ReasoningDelta(Seq<char>),
    ToolCall { index: usize, call: ToolCallV },
    Usage(TokenUsage),
    Finish(FinishReasonV),
}

impl View for StreamEvent {
    type V = StreamEventV;

    open spec fn view(&self) -> StreamEventV {
        match self {
            StreamEvent::TextDelta(t) => StreamEventV::TextDelta(t@),
            StreamEvent::ReasoningDelta(t) => StreamEventV::ReasoningDelta(t@),
            StreamEvent::ToolCall { index, call } => StreamEventV::ToolCall {
                index: *index,
                call: call@,
            },
            StreamEvent::Usage(u) => StreamEventV::Usage(*u),
            StreamEvent::Finish(r) => StreamEventV::Finish(r@),
        }
    }
}

impl Clone for StreamEvent {
    fn clone(&self) -> (r: Self)
        ensures
            r == *self,
    {
        match self {
            StreamEvent::TextDelta(t) => StreamEvent::TextDelta(t.clone()),
            StreamEvent::ReasoningDelta(t) => StreamEvent::ReasoningDelta(t.clone()),
            StreamEvent::ToolCall { index, call } => StreamEvent::ToolCall {
                index: *index,
                call: call.clone(),
            },
            StreamEvent::Usage(u) => StreamEvent::Usage(*u),
            StreamEvent::Finish(r) => StreamEvent::Finish(r.clone()),
        }
    }
}

/// What can go wrong in a call of a model.
#[derive(Debug, PartialEq, Eq)]
pub enum LlmError {
    /// The transport failed.
    Http(String),
    /// A status other than 2xx, with the start of the body.
    StatusCode(u16, String),
    Sse(String),
    Json(String),
    Timeout,
    Cancelled,
    /// The request does not fit the model's context window.
    ContextOverflow,
    InvalidRequest(String),
    /// A provider's error text without a status.
    Provider(String),
    Other(String),
}

impl Clone for LlmError {
    fn clone(&self) -> (r: Self)
        ensures
            r == *self,
    {
        match self {
            LlmError::Http(e) => LlmError::Http(e.clone()),
            LlmError::StatusCode(c, b) => LlmError::StatusCode(*c, b.clone()),
            LlmError::Sse(e) => LlmError::Sse(e.clone()),
            LlmError::Json(e) => LlmError::Json(e.clone()),
            LlmError::Timeout => LlmError::Timeout,
            LlmError::Cancelled => LlmError::Cancelled,
            LlmError::ContextOverflow => LlmError::ContextOverflow,
            LlmError::InvalidRequest(e) => LlmError::InvalidRequest(e.clone()),
            LlmError::Provider(e) => LlmError::Provider(e.clone()),
            LlmError::Other(e) => LlmError::Other(e.clone()),
        }
    }
}

impl LlmError {
    /// The transient errors: a failed transport, a timeout, a provider's text, and the
    /// statuses 408, 429 and 5xx.
    pub open spec fn retryable(self) -> bool {
        match self {
            LlmError::Http(_) | LlmError::Timeout | LlmError::Provider(_) => true,
            LlmError::StatusCode(code, _) => code == 429 || code == 408 || 500 <= code <= 599,
            _ => false,
        }
    }

    pub fn is_retryable(&self) -> (r: bool)
        ensures
            r == self.retryable(),
    {
        match self {
            LlmError::Http(_) => true,
            LlmError::Timeout => true,
            LlmError::Provider(_) => true,
            LlmError::StatusCode(code, _) => *code == 429 || *code == 408 || (500 <= *code && *code
                <= 599),
            _ => false,
        }
    }

    pub open spec fn message(self) -> Seq<char> {
        match self {
            LlmError::Http(e) => "http: "@ + e@,
            LlmError::StatusCode(c, b) => "status "@ + text::nat_text(c as nat) + ": "@ + b@,
            LlmError::Sse(e) => "sse: "@ + e@,
            LlmError::Json(e) => "json: "@ + e@,
            LlmError::Timeout => "timeout"@,
            LlmError::Cancelled => "cancelled"@,
            LlmError::ContextOverflow => "context overflow"@,
            LlmError::InvalidRequest(e) => "invalid request: "@ + e@,
            LlmError::Provider(e) => "provider: "@ + e@,
            LlmError::Other(e) => e@,
        }
    }

    /// The text that users see.
    pub fn text(&self) -> (r: String)
        ensures
            r@ == self.message(),
    {
        match self {
            LlmError::Http(e) => prefixed("http: ", e),
            LlmError::StatusCode(c, b) => {
                let mut r = prefixed("status ", &text::u64_text(*c as u64));
                r.push_str(": ");
                r.push_str(b);
                r
            },
            LlmError::Sse(e) => prefixed("sse: ", e),
            LlmError::Json(e) => prefixed("json: ", e),
            LlmError::Timeout => "timeout".to_owned(),
            LlmError::Cancelled => "cancelled".to_owned(),
            LlmError::ContextOverflow => "context overflow".to_owned(),
            LlmError::InvalidRequest(e) => prefixed("invalid request: ", e),
            LlmError::Provider(e) => prefixed("provider: ", e),
            LlmError::Other(e) => e.clone(),
        }
    }
}

pub(crate) fn prefixed(a: &str, b: &str) -> (r: String)
    ensures
        r@ == a@ + b@,
{
    let mut r = a.to_owned();
    r.push_str(b);
    r
}

} // verus!
