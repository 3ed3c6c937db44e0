use vstd::prelude::*;

verus! {

/// A half-open range `[start, end)` of byte offsets.
#[derive(Clone, Copy, Debug, PartialEq, Eq, Hash)]
pub struct SourceSpan {
    pub start: usize,
    pub end: usize,
}

impl SourceSpan {
    /// Whether the offset `pos` lies in the range.
    pub open spec fn holds(self, pos: int) -> bool {
        self.start <= pos < self.end
    }

    /// Whether the range ends no earlier than it starts.
    pub open spec fn wf(self) -> bool {
        self.start <= self.end
    }

    /// The range from `start` up to, but without, `end`.
    pub fn new(start: usize, end: usize) -> (span: SourceSpan)
        requires
            start <= end,
        ensures
            span == (SourceSpan { start, end }),
            span.wf(),
    {
        SourceSpan { start, end }
    }

    /// Whether the offset `pos` lies in the range.
    pub fn contains(&self, pos: usize) -> (inside: bool)
        ensures
            inside == self.holds(pos as int),
    {
        self.start <= pos && pos < self.end
    }
}

} // verus!
