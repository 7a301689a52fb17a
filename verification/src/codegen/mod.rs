//! What the code generators share.
pub mod case_laws;
pub mod common;
pub mod visit_laws;

use vstd::prelude::*;

verus! {

/// One file ready to be written: the path, relative to the output directory,
/// and the contents.
#[derive(Debug)]
pub struct EmittedFile {
    /// Path relative to the output directory.
    pub path: String,
    /// Complete file contents.
    pub contents: String,
}

/// The languages that a parser can be generated in.
#[derive(Clone, Copy, Debug, PartialEq, Eq, Structural)]
pub enum GenerateTarget {
    /// Rust.
    Rust,
    /// Python.
    Python,
    /// TypeScript.
    Typescript,
    /// Go.
    Go,
    /// Java.
    Java,
    /// C#.
    Csharp,
    /// C.
    C,
}

} // verus!
