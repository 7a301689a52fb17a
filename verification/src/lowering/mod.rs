//! Lowering of an analysed grammar to lexer and parser tables.
pub mod aho_corasick;
pub mod choices;
pub mod closed;
pub mod comment;
pub mod decided;
pub mod derivation;
pub mod dispatch;
pub mod dump;
pub mod first_paths;
pub mod fuse;
pub mod fuse_laws;
pub mod graph;
pub mod kept;
pub mod language;
pub mod layout;
pub mod levels;
pub mod lexer_dfa;
pub mod meaning;
pub mod metric_laws;
pub mod minimize;
pub mod nesting;
pub mod nfa;
pub mod number_laws;
pub mod optimize;
pub mod pass_laws;
pub mod path_laws;
pub mod pipeline;
pub mod prefixes;
pub mod program;
pub mod reach;
pub mod recovery;
pub mod runs;
pub mod remaining;
pub mod state_first;
pub mod subset;
pub mod table;
pub mod targets;
pub mod trim;
pub mod utf8_ranges;
pub mod validate;

pub use dispatch::build_dispatch_tree;
pub use lexer_dfa::{ByteArm, DfaOpts, DfaState, DEAD, START};
pub use optimize::LoweringOpts;
pub use pipeline::{lower, lower_with_opts, max_event_burst};
pub use recovery::{Insertion, PostFirst};
pub use table::{
    Body, DispatchLeaf, DispatchTree, FirstSet, Instr, State, StateTable, SyncSet, Tail, TokenInfo,
    TERMINATED,
};
