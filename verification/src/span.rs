//! Byte ranges and line/column positions within a source text.
use vstd::prelude::*;

verus! {

/// A place in a source text: its byte offset, and its 1-based line and column.
#[derive(Debug, Clone, Copy, PartialEq, Eq, Structural)]
pub struct Position {
    pub byte: usize,
    pub line: usize,
    pub column: usize,
}

/// The half-open byte range `start..end` of a source text.
#[derive(Debug, Clone, Copy, PartialEq, Eq, Structural)]
pub struct Span {
    pub start: usize,
    pub end: usize,
}

impl Span {
    pub fn new(start: usize, end: usize) -> (s: Span)
        ensures
            s == (Span { start, end }),
    {
        Span { start, end }
    }

    /// The number of bytes the span covers.
    pub fn len(self) -> (n: usize)
        requires
            self.start <= self.end,
        ensures
            n == self.end - self.start,
    {
        self.end - self.start
    }

    pub fn is_empty(self) -> (b: bool)
        ensures
            b == (self.start == self.end),
    {
        self.start == self.end
    }
}

} // verus!
