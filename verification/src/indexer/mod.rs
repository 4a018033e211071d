//! The index of a knowledge base: which files are in it, how they are written, and how they
//! are found.

pub mod around;
pub mod batch;
pub mod lying;
pub mod paths;
pub mod rank;
pub mod search;
pub mod shown;
