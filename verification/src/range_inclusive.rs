//! A closed range given by its two ends.

use vstd::prelude::*;

verus! {

/// The values from `start` to `end`, both included.
///
/// The type keeps no order between its ends: whoever builds a range answers
/// for `start` not lying above `end`.
#[derive(Debug, PartialEq)]
pub struct RangeInclusive<I> {
    /// The least value of the range.
    pub start: I,
    /// The greatest value of the range.
    pub end: I,
}

impl<I> RangeInclusive<I> {
    /// The range from `s` to `e`.
    pub fn new(s: I, e: I) -> (r: Self)
        ensures
            r.start == s,
            r.end == e,
    {
        RangeInclusive { start: s, end: e }
    }
}

impl<I: Clone> Clone for RangeInclusive<I> {
    /// A range whose ends are clones of the ends of this one.
    fn clone(&self) -> (r: Self)
        ensures
            cloned(self.start, r.start),
            cloned(self.end, r.end),
    {
        RangeInclusive { start: self.start.clone(), end: self.end.clone() }
    }
}

} // verus!
