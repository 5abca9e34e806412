//! Offsets and ranges in a source text, counted in bytes.

use vstd::prelude::*;

verus! {

/// A byte offset into a source text.
pub type TextSize = u32;

/// A half-open range of byte offsets.
#[derive(Debug, Clone, Copy, PartialEq, Eq, Structural)]
pub struct TextRange {
    pub start: TextSize,
    pub end: TextSize,
}

impl TextRange {
    /// A range runs forwards.
    pub open spec fn wf(self) -> bool {
        self.start <= self.end
    }

    /// Whether `other` lies within this range, ends included.
    pub open spec fn spec_contains_range(self, other: TextRange) -> bool {
        self.start <= other.start && other.end <= self.end
    }

    pub fn new(start: TextSize, end: TextSize) -> (range: TextRange)
        requires
            start <= end,
        ensures
            range.start == start,
            range.end == end,
    {
        TextRange { start, end }
    }

    pub fn empty(at: TextSize) -> (range: TextRange)
        ensures
            range.start == at,
            range.end == at,
    {
        TextRange { start: at, end: at }
    }

    pub fn is_empty(&self) -> (empty: bool)
        ensures
            empty == (self.start == self.end),
    {
        self.start == self.end
    }

    pub fn contains_range(&self, other: TextRange) -> (contains: bool)
        ensures
            contains == self.spec_contains_range(other),
    {
        self.start <= other.start && other.end <= self.end
    }

    /// Whether `offset` is in the range or at its end.
    pub fn contains_inclusive(&self, offset: TextSize) -> (contains: bool)
        ensures
            contains == (self.start <= offset <= self.end),
    {
        self.start <= offset && offset <= self.end
    }

    /// The text the two ranges share, when they meet at all.
    pub fn intersect(&self, other: TextRange) -> (shared: Option<TextRange>)
        ensures
            shared is Some <==> {
                let start = if self.start >= other.start { self.start } else { other.start };
                let end = if self.end <= other.end { self.end } else { other.end };
                start <= end
            },
            shared matches Some(range) ==> {
                &&& range.start == if self.start >= other.start { self.start } else { other.start }
                &&& range.end == if self.end <= other.end { self.end } else { other.end }
            },
    {
        let start: TextSize = if self.start >= other.start { self.start } else { other.start };
        let end: TextSize = if self.end <= other.end { self.end } else { other.end };
        if start <= end {
            Some(TextRange { start, end })
        } else {
            None
        }
    }

    /// The smallest range holding both.
    pub fn cover(&self, other: TextRange) -> (covering: TextRange)
        ensures
            covering.start == if self.start <= other.start { self.start } else { other.start },
            covering.end == if self.end >= other.end { self.end } else { other.end },
    {
        TextRange {
            start: if self.start <= other.start { self.start } else { other.start },
            end: if self.end >= other.end { self.end } else { other.end },
        }
    }
}

/// Whether `a` ends where `b` starts, or before.
pub open spec fn is_before(a: TextRange, b: TextRange) -> bool {
    a.end <= b.start
}

} // verus!
