//! The set itself: a list of intervals in normal form, with insertion and the
//! queries on it.

use crate::interval::Interval;
use crate::model::{
    first_largest, gathers, lemma_gathers_more, lemma_gathers_none, lemma_points_count,
    lemma_spliced, lemma_total_prefix, normalized, points, total,
};
use vstd::prelude::*;

verus! {

/// A set of `u32` integers, held as ascending intervals that neither overlap
/// nor touch.
#[derive(Debug, Eq)]
pub struct IntervalSet {
    pub(crate) intervals: Vec<Interval>,
}

impl Clone for IntervalSet {
    /// A set that holds the same intervals.
    fn clone(&self) -> (res: IntervalSet)
        ensures
            res.intervals() == self.intervals(),
            res@ == self@,
            res.wf() == self.wf(),
    {
        let intervals = self.intervals.clone();
        proof {
            assert(intervals@ =~= self.intervals@);
        }
        IntervalSet { intervals }
    }
}

impl View for IntervalSet {
    type V = Set<int>;

    /// The integers in the set.
    open spec fn view(&self) -> Set<int> {
        points(self.intervals())
    }
}

impl IntervalSet {
    /// The intervals held, in order.
    pub open(crate) spec fn intervals(self) -> Seq<Interval> {
        self.intervals@
    }

    /// The intervals held are in normal form.
    pub open spec fn wf(self) -> bool {
        normalized(self.intervals())
    }

    /// The set without elements.
    pub fn empty() -> (res: IntervalSet)
        ensures
            res.wf(),
            res.intervals() == Seq::<Interval>::empty(),
            res@ == Set::<int>::empty(),
    {
        let res = IntervalSet { intervals: Vec::new() };
        assert(res@ =~= Set::<int>::empty());
        res
    }

    /// Whether the set has no element.
    pub fn is_empty(&self) -> (res: bool)
        requires
            self.wf(),
        ensures
            res == (self@ == Set::<int>::empty()),
            res == (self.intervals().len() == 0),
    {
        proof {
            if self.intervals().len() > 0 {
                assert(self.intervals()[0].valid());
                assert(self.intervals()[0].contains(self.intervals()[0].lo()));
                assert(self@.contains(self.intervals()[0].lo()));
            } else {
                assert(self@ =~= Set::<int>::empty());
            }
        }
        self.intervals.len() == 0
    }

    /// Adds every integer of `element` to the set. Intervals that `element`
    /// overlaps or touches are taken up into one interval with it; the others
    /// stay as they are.
    pub fn insert(&mut self, element: Interval)
        requires
            old(self).wf(),
            element.valid(),
        ensures
            final(self).wf(),
            final(self)@ == old(self)@.union(element.points()),
    {
        let ghost s = self.intervals@;
        let n: usize = self.intervals.len();
        let mut out: Vec<Interval> = Vec::new();
        let mut newinf: u32 = element.lo;
        let mut newsup: u32 = element.hi;
        let mut pos: usize = 0;
        proof {
            lemma_gathers_none(element);
            assert(s.subrange(0, 0) =~= Seq::<Interval>::empty());
        }
        while pos < n
            invariant
                self.intervals@ == s,
                n == s.len(),
                normalized(s),
                element.valid(),
                pos <= n,
                out.len() <= pos,
                out@ == s.subrange(0, out.len() as int),
                forall|i: int| 0 <= i < out.len() ==> (#[trigger] s[i]).hi() + 1 < newinf,
                newinf <= element.lo(),
                element.hi() <= newsup,
                out.len() < pos ==> newinf <= s[out.len() as int].lo(),
                gathers(
                    newinf as int,
                    newsup as int,
                    element,
                    s.subrange(out.len() as int, pos as int),
                ),
            ensures
                pos <= n,
                pos < n ==> newsup + 1 < s[pos as int].lo(),
            decreases n - pos,
        {
            let intv = self.intervals[pos];
            let ghost mid = s.subrange(out.len() as int, pos as int);
            proof {
                assert(s[pos as int].valid());
                if out.len() < pos {
                    assert(s[out.len() as int].valid());
                    if out.len() < pos - 1 {
                        assert(s[out.len() as int].hi() + 1 < s[pos as int].lo());
                    }
                }
            }
            if newinf as u64 > intv.hi as u64 + 1 {
                assert(out.len() == pos);
                out.push(intv);
                proof {
                    assert(out@ =~= s.subrange(0, out.len() as int));
                    assert(s.subrange(out.len() as int, pos + 1) =~= Seq::<Interval>::empty());
                    assert(mid =~= Seq::<Interval>::empty());
                }
            } else if (newsup as u64) + 1 < intv.lo as u64 {
                break ;
            } else {
                let ghost oldinf = newinf;
                let ghost oldsup = newsup;
                if intv.lo < newinf {
                    newinf = intv.lo;
                }
                if intv.hi > newsup {
                    newsup = intv.hi;
                }
                proof {
                    lemma_gathers_more(
                        oldinf as int,
                        oldsup as int,
                        element,
                        mid,
                        intv,
                        newinf as int,
                        newsup as int,
                    );
                    assert(s.subrange(out.len() as int, pos + 1) =~= mid.push(intv));
                }
            }
            pos += 1;
        }
        let ghost kept = out.len();
        let candidate = Interval { lo: newinf, hi: newsup };
        out.push(candidate);
        let ghost start = pos;
        while pos < n
            invariant
                self.intervals@ == s,
                n == s.len(),
                start <= pos <= n,
                out@ == s.subrange(0, kept as int).push(candidate) + s.subrange(
                    start as int,
                    pos as int,
                ),
            decreases n - pos,
        {
            out.push(self.intervals[pos]);
            proof {
                assert(out@ =~= s.subrange(0, kept as int).push(candidate) + s.subrange(
                    start as int,
                    pos + 1,
                ));
            }
            pos += 1;
        }
        proof {
            lemma_spliced(s, kept as int, start as int, candidate, element);
        }
        self.intervals = out;
    }

    /// The largest interval of the set: the one that covers the most
    /// integers, and of several such the first. An empty set has none.
    pub fn max(&self) -> (res: Option<Interval>)
        requires
            self.wf(),
        ensures
            res is None <==> self.intervals().len() == 0,
            res matches Some(m) ==> exists|k: int|
                first_largest(self.intervals(), k) && self.intervals()[k] == m,
    {
        let n: usize = self.intervals.len();
        if n == 0 {
            return None;
        }
        let ghost s = self.intervals@;
        let mut best: usize = 0;
        assert(s[0].valid());
        let mut max: u32 = self.intervals[0].hi - self.intervals[0].lo;
        let mut pos: usize = 1;
        while pos < n
            invariant
                self.intervals@ == s,
                normalized(s),
                n == s.len(),
                1 <= pos <= n,
                best < pos,
                max == s[best as int].count() - 1,
                forall|j: int| 0 <= j < pos ==> (#[trigger] s[j]).count() <= s[best as int].count(),
                forall|j: int| 0 <= j < best ==> (#[trigger] s[j]).count() < s[best as int].count(),
            decreases n - pos,
        {
            let intv = self.intervals[pos];
            assert(s[pos as int].valid());
            let curr: u32 = intv.hi - intv.lo;
            if curr > max {
                max = curr;
                best = pos;
            }
            pos += 1;
        }
        assert(first_largest(s, best as int));
        Some(self.intervals[best])
    }

    /// The number of integers in the set, which is the sum of its intervals'
    /// counts. The set of all `u32` integers holds one more than a `u32` can
    /// count, so it is left out.
    pub fn size(&self) -> (res: u32)
        requires
            self.wf(),
            self@.len() <= u32::MAX,
        ensures
            res == self@.len(),
            res == total(self.intervals()),
    {
        let ghost s = self.intervals@;
        proof {
            lemma_points_count(s);
            lemma_total_prefix(s, 0);
        }
        let n: usize = self.intervals.len();
        let mut acc: u32 = 0;
        let mut pos: usize = 0;
        while pos < n
            invariant
                self.intervals@ == s,
                normalized(s),
                n == s.len(),
                pos <= n,
                total(s) <= u32::MAX,
                acc == total(s.subrange(0, pos as int)),
            decreases n - pos,
        {
            proof {
                lemma_total_prefix(s, pos as int);
                lemma_total_prefix(s, pos + 1);
                assert(s[pos as int].valid());
            }
            acc = acc + self.intervals[pos].range_size();
            pos += 1;
        }
        assert(s.subrange(0, n as int) =~= s);
        acc
    }

    /// A cursor at the first interval of the set.
    pub fn iter<'a>(&'a self) -> (res: IntervalSetIterator<'a>)
        ensures
            res.set() == *self,
            res.position() == 0,
    {
        IntervalSetIterator { inner: self, pos: 0 }
    }
}

/// A cursor that walks the intervals of a set in ascending order.
pub struct IntervalSetIterator<'a> {
    pub(crate) pos: usize,
    pub(crate) inner: &'a IntervalSet,
}

impl<'a> IntervalSetIterator<'a> {
    /// The set that is walked.
    pub open(crate) spec fn set(self) -> IntervalSet {
        *self.inner
    }

    /// How many intervals the cursor has handed out.
    pub open(crate) spec fn position(self) -> int {
        self.pos as int
    }

    /// Hands out the next interval and steps past it, or hands out nothing
    /// once every interval has been handed out.
    pub fn next(&mut self) -> (res: Option<&'a Interval>)
        ensures
            final(self).set() == old(self).set(),
            old(self).position() < old(self).set().intervals().len() ==> res == Some(
                &old(self).set().intervals()[old(self).position()],
            ) && final(self).position() == old(self).position() + 1,
            old(self).position() >= old(self).set().intervals().len() ==> res is None
                && final(self).position() == old(self).position(),
    {
        let inner: &'a IntervalSet = self.inner;
        if self.pos >= inner.intervals.len() {
            None
        } else {
            self.pos += 1;
            Some(&inner.intervals[self.pos - 1])
        }
    }
}

} // verus!
