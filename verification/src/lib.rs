//! Verified core of a markdown workspace assistant.

pub mod agent;
pub mod bookmark;
pub mod graph;
pub mod indexer;
pub mod json;
pub mod rows;
pub mod text;
