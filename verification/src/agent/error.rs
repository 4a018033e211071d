//! What can end a turn early.

use crate::agent::types::{prefixed, LlmError};
use crate::text;
use vstd::prelude::*;

verus! {

/// An error of the agent loop.
#[derive(Debug, PartialEq, Eq)]
pub enum LoopError {
    Llm(LlmError),
    /// The budget of model calls is used up.
    MaxTurns { max_turns: usize },
    Tool { name: String, message: String },
    Cancelled,
    Internal(String),
}

impl Clone for LoopError {
    fn clone(&self) -> (r: Self)
        ensures
            r == *self,
    {
        match self {
            LoopError::Llm(e) => LoopError::Llm(e.clone()),
            LoopError::MaxTurns { max_turns } => LoopError::MaxTurns { max_turns: *max_turns },
            LoopError::Tool { name, message } => LoopError::Tool {
                name: name.clone(),
                message: message.clone(),
            },
            LoopError::Cancelled => LoopError::Cancelled,
            LoopError::Internal(m) => LoopError::Internal(m.clone()),
        }
    }
}

impl LoopError {
    pub fn is_cancelled(&self) -> (r: bool)
        ensures
            r == (self is Cancelled),
    {
        match self {
            LoopError::Cancelled => true,
            _ => false,
        }
    }

    pub fn is_context_overflow(&self) -> (r: bool)
        ensures
            r == (*self == LoopError::Llm(LlmError::ContextOverflow)),
    {
        match self {
            LoopError::Llm(LlmError::ContextOverflow) => true,
            _ => false,
        }
    }

    pub fn is_max_turns(&self) -> (r: bool)
        ensures
            r == (self is MaxTurns),
    {
        match self {
            LoopError::MaxTurns { .. } => true,
            _ => false,
        }
    }

    pub open spec fn message(self) -> Seq<char> {
        match self {
            LoopError::Llm(e) => "llm: "@ + e.message(),
            LoopError::MaxTurns { max_turns } => "达到模型调用轮次上限（"@ + text::nat_text(
                max_turns as nat,
            ) + " 轮），回答可能不完整"@,
            LoopError::Tool { name, message } => "工具 "@ + name@ + " 执行失败: "@ + message@,
            LoopError::Cancelled => "cancelled"@,
            LoopError::Internal(m) => "internal: "@ + m@,
        }
    }

    /// The text that users see.
    pub fn text(&self) -> (r: String)
        ensures
            r@ == self.message(),
    {
        match self {
            LoopError::Llm(e) => prefixed("llm: ", &e.text()),
            LoopError::MaxTurns { max_turns } => {
                let mut r = prefixed("达到模型调用轮次上限（", &text::u64_text(*max_turns as u64));
                r.push_str(" 轮），回答可能不完整");
                r
            },
            LoopError::Tool { name, message } => {
                let mut r = prefixed("工具 ", name);
                r.push_str(" 执行失败: ");
                r.push_str(message);
                r
            },
            LoopError::Cancelled => "cancelled".to_owned(),
            LoopError::Internal(m) => prefixed("internal: ", m),
        }
    }
}

impl From<LlmError> for LoopError {
    fn from(e: LlmError) -> (r: Self) {
        LoopError::Llm(e)
    }
}

impl vstd::std_specs::convert::FromSpecImpl<LlmError> for LoopError {
    open spec fn obeys_from_spec() -> bool {
        true
    }

    open spec fn from_spec(e: LlmError) -> Self {
        LoopError::Llm(e)
    }
}

} // verus!
