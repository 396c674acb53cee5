//! Leftmost-first / standard multi-pattern search with a verified prefilter,
//! UTF-8-safe replacement, and the property functions that exercise them.

pub mod semantics;
pub mod automaton;
pub mod text;
pub mod replace;
pub mod etna;
pub mod laws;
pub mod generate;
pub mod runner;
