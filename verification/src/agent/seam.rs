//! What is asked of a model, and what it replies.

use crate::agent::types::{FinishReason, LlmMessage, TokenUsage, ToolCall};
use crate::json::Json;
use vstd::prelude::*;

verus! {

/// A tool as the model sees it.
#[derive(Debug, PartialEq, Eq)]
pub struct ToolSchema {
    pub name: String,
    pub description: String,
    /// JSON Schema of the arguments.
    pub parameters: Json,
}

/// A request for a completion.
#[derive(Debug, PartialEq, Eq)]
pub struct CompletionRequest {
    pub messages: Vec<LlmMessage>,
    /// The tools that the model may call.
    pub tools: Vec<ToolSchema>,
    pub max_tokens: Option<u32>,
    /// `low`, `medium` or `high`.
    pub reasoning_effort: Option<String>,
    /// JSON Schema of the reply, where it is to be structured.
    pub output_schema: Option<Json>,
    /// The sampling temperature, as a JSON number.
    pub temperature: Option<String>,
    pub stream: bool,
    /// Further top-level fields of the request.
    pub extra_params: Option<Json>,
}

impl CompletionRequest {
    pub fn new(messages: Vec<LlmMessage>) -> (r: Self)
        ensures
            r.messages == messages,
            r.tools@.len() == 0,
            r.max_tokens is None,
            r.reasoning_effort is None,
            r.output_schema is None,
            r.temperature is None,
            !r.stream,
            r.extra_params is None,
    {
        CompletionRequest {
            messages,
            tools: Vec::new(),
            max_tokens: None,
            reasoning_effort: None,
            output_schema: None,
            temperature: None,
            stream: false,
            extra_params: None,
        }
    }
}

/// A whole completion.
#[derive(Debug, PartialEq, Eq)]
pub struct CompletionResponse {
    /// The text of the reply.
    pub content: String,
    pub tool_calls: Vec<ToolCall>,
    pub usage: Option<TokenUsage>,
    pub finish_reason: Option<FinishReason>,
}

impl CompletionResponse {
    pub fn is_empty(&self) -> (r: bool)
        ensures
            r == (self.content@.len() == 0 && self.tool_calls@.len() == 0),
    {
        self.content.as_str().is_empty() && self.tool_calls.is_empty()
    }
}

} // verus!
