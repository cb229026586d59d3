//! The order of intervals: by lower bound, and of two with the same lower
//! bound by upper bound. The equality of sets: two sets are equal when they
//! hold the same intervals.

use crate::interval::Interval;
use crate::set::IntervalSet;
use core::cmp::Ordering;
use vstd::prelude::*;
use vstd::std_specs::cmp::PartialEqSpecImpl;
use vstd::std_specs::cmp::PartialOrdSpecImpl;

verus! {

impl PartialOrd for Interval {
    /// How `self` stands to `other`.
    fn partial_cmp(&self, other: &Interval) -> (res: Option<Ordering>) {
        if self.lo < other.lo {
            Some(Ordering::Less)
        } else if self.lo > other.lo {
            Some(Ordering::Greater)
        } else if self.hi < other.hi {
            Some(Ordering::Less)
        } else if self.hi > other.hi {
            Some(Ordering::Greater)
        } else {
            Some(Ordering::Equal)
        }
    }
}

impl PartialOrdSpecImpl for Interval {
    open spec fn obeys_partial_cmp_spec() -> bool {
        true
    }

    /// The lower bounds decide; where they are equal, the upper bounds do.
    open spec fn partial_cmp_spec(&self, other: &Interval) -> Option<Ordering> {
        if self.lo() < other.lo() {
            Some(Ordering::Less)
        } else if self.lo() > other.lo() {
            Some(Ordering::Greater)
        } else if self.hi() < other.hi() {
            Some(Ordering::Less)
        } else if self.hi() > other.hi() {
            Some(Ordering::Greater)
        } else {
            Some(Ordering::Equal)
        }
    }
}

impl PartialEq for IntervalSet {
    /// Whether the two sets hold the same intervals.
    fn eq(&self, other: &IntervalSet) -> (res: bool) {
        let n: usize = self.intervals.len();
        if n != other.intervals.len() {
            return false;
        }
        let mut pos: usize = 0;
        while pos < n
            invariant
                n == self.intervals@.len(),
                n == other.intervals@.len(),
                pos <= n,
                forall|i: int| 0 <= i < pos ==> self.intervals@[i] == other.intervals@[i],
            decreases n - pos,
        {
            let a = self.intervals[pos];
            let b = other.intervals[pos];
            if a.lo != b.lo || a.hi != b.hi {
                assert(self.intervals@[pos as int] != other.intervals@[pos as int]);
                return false;
            }
            pos += 1;
        }
        assert(self.intervals@ =~= other.intervals@);
        true
    }
}

impl PartialEqSpecImpl for IntervalSet {
    open spec fn obeys_eq_spec() -> bool {
        true
    }

    /// The same intervals in the same order.
    open spec fn eq_spec(&self, other: &IntervalSet) -> bool {
        self.intervals() == other.intervals()
    }
}

} // verus!
