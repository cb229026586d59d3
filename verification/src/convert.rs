//! Building a set from other values: one interval, a list of intervals, a
//! list of pairs of bounds, or a text.

use crate::interval::Interval;
use crate::interval::IntervalError;
use crate::model::{covers, lemma_covers_push, points};
use crate::set::IntervalSet;
use crate::text::{parse, text_describes};
use vstd::prelude::*;

verus! {

/// Every interval of the list has its bounds in order.
pub open spec fn all_valid(v: Seq<Interval>) -> bool {
    forall|i: int| 0 <= i < v.len() ==> (#[trigger] v[i]).valid()
}

/// Every pair of the list has its first bound at or below its second.
pub open spec fn all_ordered(v: Seq<(u32, u32)>) -> bool {
    forall|i: int| 0 <= i < v.len() ==> (#[trigger] v[i]).0 <= v[i].1
}

/// Some pair of the list has `x` between its bounds.
pub open spec fn pairs_cover(v: Seq<(u32, u32)>, x: int) -> bool {
    exists|i: int| 0 <= i < v.len() && (#[trigger] v[i]).0 <= x <= v[i].1
}

/// The integers that lie between the bounds of some pair of the list.
pub open spec fn pairs_points(v: Seq<(u32, u32)>) -> Set<int> {
    Set::new(|x: int| pairs_cover(v, x))
}

/// A value that describes a set of integers, or fails to.
pub trait ToIntervalSet: Sized {
    /// Whether `outcome` is what the value stands for: the integers of the
    /// set that it describes, or the reason why it describes none.
    spec fn describes(self, outcome: Result<Set<int>, IntervalError>) -> bool;

    /// The set that the value describes, or the reason why it describes none.
    fn to_interval_set(self) -> (res: Result<IntervalSet, IntervalError>)
        ensures
            res matches Ok(set) ==> set.wf() && self.describes(Ok(set@)),
            res matches Err(e) ==> self.describes(Err(e)),
    ;
}

impl ToIntervalSet for Interval {
    /// An interval with its bounds in order stands for the integers that it
    /// holds; any other is refused.
    open spec fn describes(self, outcome: Result<Set<int>, IntervalError>) -> bool {
        outcome == if self.valid() {
            Ok::<Set<int>, IntervalError>(self.points())
        } else {
            Err::<Set<int>, IntervalError>(IntervalError::InvalidRange)
        }
    }

    fn to_interval_set(self) -> (res: Result<IntervalSet, IntervalError>) {
        if self.is_valid() {
            let mut set = IntervalSet::empty();
            set.insert(self);
            assert(set@ =~= self.points());
            Ok(set)
        } else {
            Err(IntervalError::InvalidRange)
        }
    }
}

impl ToIntervalSet for Vec<Interval> {
    /// A list of intervals that all have their bounds in order stands for
    /// the integers that any of them holds, in whatever order they come and
    /// however they overlap; a list with any other interval is refused.
    open spec fn describes(self, outcome: Result<Set<int>, IntervalError>) -> bool {
        outcome == if all_valid(self@) {
            Ok::<Set<int>, IntervalError>(points(self@))
        } else {
            Err::<Set<int>, IntervalError>(IntervalError::InvalidRange)
        }
    }

    fn to_interval_set(self) -> (res: Result<IntervalSet, IntervalError>) {
        let n: usize = self.len();
        let mut res = IntervalSet::empty();
        let mut pos: usize = 0;
        while pos < n
            invariant
                n == self@.len(),
                pos <= n,
                res.wf(),
                forall|i: int| 0 <= i < pos ==> (#[trigger] self@[i]).valid(),
                forall|x: int|
                    #![trigger res@.contains(x)]
                    res@.contains(x) <==> covers(self@.subrange(0, pos as int), x),
            decreases n - pos,
        {
            let intv = self[pos];
            if !intv.is_valid() {
                assert(!self@[pos as int].valid());
                return Err(IntervalError::InvalidRange);
            }
            let ghost before = res@;
            res.insert(intv);
            proof {
                lemma_covers_push(self@.subrange(0, pos as int), intv);
                assert(self@.subrange(0, pos + 1) =~= self@.subrange(0, pos as int).push(intv));
                assert forall|x: int|
                    #![trigger res@.contains(x)]
                    res@.contains(x) <==> covers(self@.subrange(0, pos + 1), x) by {
                    assert(res@.contains(x) <==> before.contains(x) || intv.contains(x));
                }
            }
            pos += 1;
        }
        assert(self@.subrange(0, n as int) =~= self@);
        assert(res@ =~= points(self@));
        Ok(res)
    }
}

impl ToIntervalSet for Vec<(u32, u32)> {
    /// A list of pairs that all have their first bound at or below their
    /// second stands for the integers that lie between the bounds of any
    /// pair; a list with any other pair is refused.
    open spec fn describes(self, outcome: Result<Set<int>, IntervalError>) -> bool {
        outcome == if all_ordered(self@) {
            Ok::<Set<int>, IntervalError>(pairs_points(self@))
        } else {
            Err::<Set<int>, IntervalError>(IntervalError::InvalidRange)
        }
    }

    fn to_interval_set(self) -> (res: Result<IntervalSet, IntervalError>) {
        let n: usize = self.len();
        let mut res = IntervalSet::empty();
        let mut pos: usize = 0;
        while pos < n
            invariant
                n == self@.len(),
                pos <= n,
                res.wf(),
                forall|i: int| 0 <= i < pos ==> (#[trigger] self@[i]).0 <= self@[i].1,
                forall|x: int|
                    #![trigger res@.contains(x)]
                    res@.contains(x) <==> pairs_cover(self@.subrange(0, pos as int), x),
            decreases n - pos,
        {
            let (begin, end) = self[pos];
            if begin > end {
                assert(self@[pos as int].0 > self@[pos as int].1);
                return Err(IntervalError::InvalidRange);
            }
            let ghost before = res@;
            let ghost sofar = self@.subrange(0, pos as int);
            let ghost next = self@.subrange(0, pos + 1);
            res.insert(Interval { lo: begin, hi: end });
            proof {
                assert forall|x: int|
                    #![trigger res@.contains(x)]
                    res@.contains(x) <==> pairs_cover(next, x) by {
                    assert(res@.contains(x) <==> before.contains(x) || begin <= x <= end);
                    assert(before.contains(x) <==> pairs_cover(sofar, x));
                    if pairs_cover(sofar, x) {
                        let i = choose|i: int|
                            0 <= i < sofar.len() && (#[trigger] sofar[i]).0 <= x <= sofar[i].1;
                        assert(next[i].0 <= x <= next[i].1);
                    }
                    if begin <= x <= end {
                        assert(next[pos as int].0 <= x <= next[pos as int].1);
                    }
                    if pairs_cover(next, x) {
                        let i = choose|i: int|
                            0 <= i < next.len() && (#[trigger] next[i]).0 <= x <= next[i].1;
                        if i < pos {
                            assert(sofar[i].0 <= x <= sofar[i].1);
                        }
                    }
                }
            }
            pos += 1;
        }
        assert(self@.subrange(0, n as int) =~= self@);
        assert(res@ =~= pairs_points(self@));
        Ok(res)
    }
}

impl ToIntervalSet for String {
    /// A text stands for what its words name, as the notation has it.
    open spec fn describes(self, outcome: Result<Set<int>, IntervalError>) -> bool {
        text_describes(self@, outcome)
    }

    fn to_interval_set(self) -> (res: Result<IntervalSet, IntervalError>) {
        parse(self.as_str())
    }
}

} // verus!
