//! Ends of ranges of order keys.
use crate::listing::order_end;
use vstd::prelude::*;

verus! {

/// One end of a range of order keys.
pub enum OrderBound {
    Included(u64),
    Excluded(u64),
    Unbounded,
}

impl OrderBound {
    /// The least order key that this bound admits as a lower end.
    pub open spec fn lower_int(self) -> int {
        match self {
            OrderBound::Included(a) => a as int,
            OrderBound::Excluded(a) => a + 1,
            OrderBound::Unbounded => 0,
        }
    }

    /// One more than the greatest order key that this bound admits as an upper end.
    pub open spec fn upper_int(self) -> int {
        match self {
            OrderBound::Included(b) => b + 1,
            OrderBound::Excluded(b) => b as int,
            OrderBound::Unbounded => order_end(),
        }
    }

    /// Whether `t` lies below this lower end.
    pub fn is_below(&self, t: u64) -> (r: bool)
        ensures
            r == (t < self.lower_int()),
    {
        match self {
            OrderBound::Included(a) => t < *a,
            OrderBound::Excluded(a) => t <= *a,
            OrderBound::Unbounded => false,
        }
    }

    /// Whether `t` lies at or past this upper end.
    pub fn is_past(&self, t: u64) -> (r: bool)
        ensures
            r == (t >= self.upper_int()),
    {
        match self {
            OrderBound::Included(b) => t > *b,
            OrderBound::Excluded(b) => t >= *b,
            OrderBound::Unbounded => false,
        }
    }
}

} // verus!
