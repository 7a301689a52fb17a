//! Grammar representation and the reader that builds it.
pub mod file_table;
pub mod file_writing;
pub mod ir;
pub mod literal;
pub mod literal_laws;
pub mod notation;
pub mod parser;
pub mod pattern_writing;
pub mod reader;
pub mod rule_writing;
pub mod refs;
pub mod resolve;
pub mod syntax;

pub use ir::Grammar;
pub use parser::parse_grammar;
