//! Source positions and ranges.
use vstd::prelude::*;

verus! {

/// A source position: a byte offset plus the 1-based line/column it falls on.
///
/// `offset` is measured in bytes into the input. `line` and `column` are
/// 1-based; a position before any input has been consumed is on line 1,
/// column 1.
#[derive(Copy, Clone, Debug, PartialEq, Eq, Structural)]
pub struct Pos {
    /// 0-based byte offset into the source.
    pub offset: u32,
    /// 1-based line number (each `\n` increments this).
    pub line: u32,
    /// 1-based column, counted in Unicode codepoints within the current line.
    pub column: u32,
}

impl Pos {
    /// Construct a [`Pos`] at `offset` bytes on `line`/`column`.
    pub fn new(offset: u32, line: u32, column: u32) -> (r: Self)
        ensures
            r == (Pos { offset, line, column }),
    {
        Pos { offset, line, column }
    }
}

impl Default for Pos {
    fn default() -> (r: Self)
        ensures
            r == (Pos { offset: 0, line: 0, column: 0 }),
    {
        Pos { offset: 0, line: 0, column: 0 }
    }
}

/// A half-open span `[start, end)` over the source text.
///
/// A zero-width span (`start == end`) marks a single point in the source.
#[derive(Copy, Clone, Debug, PartialEq, Eq, Structural)]
pub struct Span {
    /// Inclusive start position.
    pub start: Pos,
    /// Exclusive end position; equal to `start` for a zero-width point.
    pub end: Pos,
}

/// The span whose two ends are the all-zero position.
pub open spec fn default_span() -> Span {
    Span {
        start: Pos { offset: 0, line: 0, column: 0 },
        end: Pos { offset: 0, line: 0, column: 0 },
    }
}

impl Span {
    /// Build a span from explicit `start` and `end` positions.
    pub fn new(start: Pos, end: Pos) -> (r: Self)
        ensures
            r == (Span { start, end }),
    {
        Span { start, end }
    }

    /// Build a zero-width span at a single point.
    pub fn point(p: Pos) -> (r: Self)
        ensures
            r == (Span { start: p, end: p }),
    {
        Span { start: p, end: p }
    }

    /// Join two spans into the span that covers both, taking the start of `a`
    /// and the end of `b`. Only meaningful when `a` precedes `b`.
    pub fn join(a: Span, b: Span) -> (r: Self)
        ensures
            r == (Span { start: a.start, end: b.end }),
    {
        Span { start: a.start, end: b.end }
    }
}

impl Default for Span {
    fn default() -> (r: Self)
        ensures
            r == default_span(),
    {
        Span { start: Pos::default(), end: Pos::default() }
    }
}

} // verus!
