//! The agent kernel: protocol-neutral messages, the event-sourced session, tool
//! scheduling, the turn state machine and the provider wire formats.

pub mod types;
pub mod sent;
pub mod session;
pub mod seen;
pub mod steps;
pub mod seam;
pub mod sse;
pub mod openai;
pub mod anthropic;
pub mod error;
pub mod heard;
pub mod hooks;
pub mod tool;
pub mod offered;
pub mod tool_calls;
pub mod turn;
pub mod run;
pub mod prompt;
