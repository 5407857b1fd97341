//! A verified core for a note-organization tool: it folds a flat stream of
//! structural markup events into a nested section/block/inline document tree,
//! collects author-marked keywords into a case-insensitive, insertion-ordered
//! vocabulary, and annotates every inline text unit with explicit and implicit
//! keyword occurrences found by a word-bounded, case-insensitive search.

pub mod ast;
mod bytes;
pub mod document;
pub mod parse;
pub mod vocab;
