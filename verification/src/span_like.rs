//! The span abstraction: anything that names a half-open interval by a start
//! and an end offset, in whichever addressing unit the caller has chosen.

use core::ops::Range;
use vstd::prelude::*;

verus! {

/// A span-like value: a half-open interval `[start, end)` of unsigned
/// offsets. Callers must supply `start() <= end()`.
pub trait SpanLike {
    /// The start offset, as seen by specifications.
    spec fn spec_start(&self) -> usize;

    /// The end offset, as seen by specifications.
    spec fn spec_end(&self) -> usize;

    fn start(&self) -> (r: usize)
        ensures
            r == self.spec_start(),
    ;

    fn end(&self) -> (r: usize)
        ensures
            r == self.spec_end(),
    ;
}

impl SpanLike for Range<usize> {
    open spec fn spec_start(&self) -> usize {
        self.start
    }

    open spec fn spec_end(&self) -> usize {
        self.end
    }

    fn start(&self) -> usize {
        self.start
    }

    fn end(&self) -> usize {
        self.end
    }
}

impl SpanLike for (usize, usize) {
    open spec fn spec_start(&self) -> usize {
        self.0
    }

    open spec fn spec_end(&self) -> usize {
        self.1
    }

    fn start(&self) -> usize {
        self.0
    }

    fn end(&self) -> usize {
        self.1
    }
}

} // verus!
