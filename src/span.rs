use vstd::prelude::*;

verus! {

/// A half-open byte-offset range `[start, end)` into the source text.
#[derive(Clone, Copy, Debug, PartialEq, Eq, Structural)]
pub struct Span {
    pub start: u32,
    pub end: u32,
}

impl Span {
    pub fn new(start: u32, end: u32) -> (r: Span)
        requires
            start <= end,
        ensures
            r.start == start,
            r.end == end,
    {
        Span { start, end }
    }

    /// The span used where no location applies, `[0, 0)`.
    pub fn empty() -> (r: Span)
        ensures
            r.start == 0,
            r.end == 0,
    {
        Span { start: 0, end: 0 }
    }

    pub fn start(&self) -> (r: u32)
        ensures
            r == self.start,
    {
        self.start
    }

    pub fn end(&self) -> (r: u32)
        ensures
            r == self.end,
    {
        self.end
    }
}

} // verus!
