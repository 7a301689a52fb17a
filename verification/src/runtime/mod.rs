//! What a generated parser needs at run time.
pub mod accepted;
pub mod bursts;
pub mod ending;
pub mod events;
pub mod feeding;
pub mod laws;
pub mod lexer;
pub mod lexing;
pub mod lexing_laws;
pub mod optimized;
pub mod parser;
pub mod passes;
pub mod place_laws;
pub mod renaming;
pub mod recovery_laws;
pub mod sentences;
pub mod simulation;
pub mod stamping;
pub mod tree;
pub mod undisturbed;
