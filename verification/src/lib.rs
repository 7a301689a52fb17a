//! Parser generator for recoverable, pull-based parsers.
//!
//! A grammar file is parsed by [`grammar::parse_grammar`] into a [`Grammar`],
//! [`analysis::analyze`] checks it and computes FIRST and FOLLOW up to the
//! smallest lookahead that removes all conflicts, and [`lowering::lower`]
//! turns the result into a flat [`lowering::StateTable`], which
//! [`runtime::parser`] runs.
pub mod analysis;
pub mod codegen;
pub mod diagnostic;
pub mod grammar;
pub mod lowering;
pub mod name_map;
pub mod names;
pub mod ordered;
pub mod report;
pub mod runtime;
pub mod sorting;
pub mod span;
pub mod text;
pub mod text_laws;

pub use analysis::{AnalysisOutcome, AnalyzedGrammar};
pub use codegen::EmittedFile;
pub use diagnostic::{Diagnostic, Severity};
pub use grammar::ir::{Expr, Grammar, RuleDef, TokenDef, TokenPattern};
pub use runtime::events::Error;
pub use span::Span;
