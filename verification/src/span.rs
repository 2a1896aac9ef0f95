use vstd::prelude::*;

verus! {

/// A half-open range `start..end` of byte offsets into the source text.
#[derive(Debug, Clone, Copy, PartialEq, Eq)]
pub struct Span {
    pub start: usize,
    pub end: usize,
}

impl Span {
    pub fn new(start: usize, end: usize) -> (res: Span)
        ensures
            res.start == start,
            res.end == end,
    {
        Span { start, end }
    }

    /// The empty span at offset 0, used where no source position is known.
    pub fn empty() -> (res: Span)
        ensures
            res.start == 0,
            res.end == 0,
    {
        Span { start: 0, end: 0 }
    }
}

} // verus!
