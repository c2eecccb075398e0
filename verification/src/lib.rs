//! Substring search over directory trees: the decisions of the walker, the
//! aggregation of its outcomes and the enumeration of volumes.

pub mod drives;
pub mod error;
pub mod input;
pub mod laws;
pub mod replay;
pub mod search;
pub mod seqs;
pub mod text;
pub mod tree;
pub mod walker;
