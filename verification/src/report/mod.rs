//! What the command line prints about a grammar.
pub mod automaton;
pub mod laws;
pub mod pattern;
pub mod railroad;
pub mod summary;
