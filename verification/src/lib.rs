//! A byte-pair-encoding (BPE) vocabulary trainer.
//!
//! Given a collection of words (sequences of token ids) with corpus
//! frequencies, the trainer repeatedly merges the most frequent adjacent
//! pair of ids into a freshly assigned id until a target vocabulary size
//! is reached, producing an insertion-ordered table of merge rules.

pub mod word;
pub mod agg;
pub mod queue;
pub mod trainer;
