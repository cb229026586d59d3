//! Set algebra by one sweep over the boundary markers of two sets.
//!
//! A set is flattened into an ascending list of markers: each interval
//! `[lo, hi]` gives the marker `lo`, where the set is entered, and `hi + 1`,
//! where it is left. Markers are `u64`, so that the one after `u32::MAX`
//! exists.

use crate::interval::Interval;
use crate::model::{covers, normalized, points};
use crate::set::IntervalSet;
use vstd::prelude::*;

verus! {

/// The markers of a list of intervals: at each even place a lower bound, after
/// it the upper bound plus one.
pub open spec fn flat(s: Seq<Interval>) -> Seq<u64> {
    Seq::new(
        2 * s.len(),
        |k: int|
            if k % 2 == 0 {
                s[k / 2].lo() as u64
            } else {
                (s[k / 2].hi() + 1) as u64
            },
    )
}

/// Each marker is below the ones after it.
#[verifier::opaque]
pub open spec fn ascending(f: Seq<u64>) -> bool {
    forall|i: int, j: int| 0 <= i < j < f.len() ==> f[i] < f[j]
}

/// Of two ascending markers the earlier is the lower.
pub proof fn lemma_ascending_at(f: Seq<u64>, i: int, j: int)
    requires
        ascending(f),
        0 <= i < j < f.len(),
    ensures
        f[i] < f[j],
{
    reveal(ascending);
}

/// The integer `x` lies in a segment of the marker list: at or above a marker
/// at an even place and below the marker after it. A last marker without a
/// partner opens a segment that has no end.
pub open spec fn inside(f: Seq<u64>, x: int) -> bool {
    exists|i: int|
        0 <= i < f.len() && i % 2 == 0 && (#[trigger] f[i]) <= x && (i + 1 < f.len() ==> x < f[i
            + 1])
}

/// The integers that lie in a segment of the marker list.
pub open spec fn flat_points(f: Seq<u64>) -> Set<int> {
    Set::new(|x: int| inside(f, x))
}

/// The markers come in pairs, and each pair bounds a non-empty range of `u32`
/// integers.
pub open spec fn paired(f: Seq<u64>) -> bool {
    &&& f.len() % 2 == 0
    &&& forall|i: int|
        0 <= i < f.len() && i % 2 == 0 ==> (#[trigger] f[i]) < f[i + 1] <= u32::MAX + 1
}

/// A marker at an even place of a paired list has its partner after it.
pub proof fn lemma_paired_at(f: Seq<u64>, k: int)
    requires
        paired(f),
        0 <= k < f.len(),
        k % 2 == 0,
    ensures
        k + 1 < f.len(),
        f[k] < f[k + 1],
        f[k + 1] <= u32::MAX + 1,
{
    let a = f[k];
}

/// What a combinator owes for one integer: where the integer is in one of the
/// two operands, `c` is an answer of the combinator on the two memberships;
/// where it is in neither, `c` is false.
pub open spec fn kept<F: Fn(bool, bool) -> bool>(keep: F, l: bool, r: bool, c: bool) -> bool {
    if l || r {
        call_ensures(keep, (l, r), c)
    } else {
        !c
    }
}

/// The markers of a list in normal form ascend, come in pairs, and have the
/// integers of the list in their segments.
pub proof fn lemma_flat(s: Seq<Interval>)
    requires
        normalized(s),
    ensures
        ascending(flat(s)),
        paired(flat(s)),
        flat_points(flat(s)) == points(s),
{
    let f = flat(s);
    assert(ascending(f)) by {
        reveal(ascending);
        assert forall|i: int, j: int| 0 <= i < j < f.len() implies f[i] < f[j] by {
            let a = i / 2;
            let b = j / 2;
            assert(s[a].valid());
            assert(s[b].valid());
            if a < b {
                assert(s[a].hi() + 1 < s[b].lo());
            }
        }
    }
    assert forall|i: int| 0 <= i < f.len() && i % 2 == 0 implies (#[trigger] f[i]) < f[i + 1]
        <= u32::MAX + 1 by {
        assert(s[i / 2].valid());
        assert((i + 1) / 2 == i / 2);
    }
    assert forall|x: int| inside(f, x) <==> covers(s, x) by {
        if inside(f, x) {
            let i = choose|i: int|
                0 <= i < f.len() && i % 2 == 0 && (#[trigger] f[i]) <= x && (i + 1 < f.len() ==> x
                    < f[i + 1]);
            assert((i + 1) / 2 == i / 2);
            assert(s[i / 2].contains(x));
        }
        if covers(s, x) {
            let k = choose|k: int| 0 <= k < s.len() && (#[trigger] s[k]).contains(x);
            assert((2 * k) / 2 == k && (2 * k + 1) / 2 == k);
            assert(f[2 * k] <= x);
            assert(x < f[2 * k + 1]);
        }
    }
    assert(flat_points(f) =~= points(s));
}

/// Where `x` stands among ascending markers decides whether it is inside:
/// with `idx` markers at or below `x` and the rest above, `x` is inside when
/// `idx` is odd.
proof fn lemma_inside_by_place(f: Seq<u64>, idx: int, x: int)
    requires
        ascending(f),
        f.len() % 2 == 0,
        0 <= idx <= f.len(),
        idx > 0 ==> f[idx - 1] <= x,
        idx < f.len() ==> x < f[idx],
    ensures
        inside(f, x) <==> idx % 2 == 1,
{
    if idx % 2 == 1 {
        assert(f[idx - 1] <= x);
    }
    if inside(f, x) {
        let i = choose|i: int|
            0 <= i < f.len() && i % 2 == 0 && (#[trigger] f[i]) <= x && (i + 1 < f.len() ==> x
                < f[i + 1]);
        if i + 1 < idx - 1 {
            lemma_ascending_at(f, i + 1, idx - 1);
        }
        if i > idx {
            lemma_ascending_at(f, idx, i);
        }
    }
}

/// A marker above all others, put at the end, leaves every integer below it
/// where it was.
proof fn lemma_inside_push(f: Seq<u64>, m: u64, x: int)
    requires
        forall|i: int| 0 <= i < f.len() ==> f[i] < m,
        x < m,
    ensures
        inside(f.push(m), x) <==> inside(f, x),
{
    let g = f.push(m);
    if inside(f, x) {
        let i = choose|i: int|
            0 <= i < f.len() && i % 2 == 0 && (#[trigger] f[i]) <= x && (i + 1 < f.len() ==> x
                < f[i + 1]);
        assert(g[i] == f[i]);
        assert(g[i] <= x && (i + 1 < g.len() ==> x < g[i + 1]));
    }
    if inside(g, x) {
        let i = choose|i: int|
            0 <= i < g.len() && i % 2 == 0 && (#[trigger] g[i]) <= x && (i + 1 < g.len() ==> x
                < g[i + 1]);
        assert(i < f.len());
        assert(f[i] == g[i]);
    }
}

/// An integer at or above every marker is inside when the markers are odd in
/// number.
proof fn lemma_inside_beyond(f: Seq<u64>, x: int)
    requires
        forall|i: int| 0 <= i < f.len() ==> f[i] <= x,
    ensures
        inside(f, x) <==> f.len() % 2 == 1,
{
    if f.len() % 2 == 1 {
        assert(f[f.len() - 1] <= x);
    }
    if inside(f, x) {
        let i = choose|i: int|
            0 <= i < f.len() && i % 2 == 0 && (#[trigger] f[i]) <= x && (i + 1 < f.len() ==> x
                < f[i + 1]);
        if i + 1 < f.len() {
            assert(f[i + 1] <= x);
        }
    }
}

/// One step of the sweep. Up to the old scanning point the markers written so
/// far answer for every integer; the step has asked the combinator about the
/// stretch from the old scanning point to the new one, on which neither
/// operand changes, and has written the old point down where the answer
/// differs from the one before. Then the markers answer up to the new point.
proof fn lemma_sweep_step<F: Fn(bool, bool) -> bool>(
    keep: F,
    lf: Seq<u64>,
    rf: Seq<u64>,
    li: int,
    ri: int,
    before: Seq<u64>,
    after: Seq<u64>,
    from: u64,
    to: u64,
    answer: bool,
)
    requires
        ascending(lf),
        ascending(rf),
        lf.len() % 2 == 0,
        rf.len() % 2 == 0,
        0 <= li <= lf.len(),
        0 <= ri <= rf.len(),
        li > 0 ==> lf[li - 1] <= from,
        ri > 0 ==> rf[ri - 1] <= from,
        li < lf.len() ==> to <= lf[li],
        ri < rf.len() ==> to <= rf[ri],
        call_ensures(keep, (li % 2 == 1, ri % 2 == 1), answer),
        forall|c: bool| call_ensures(keep, (false, false), c) ==> !c,
        forall|i: int| 0 <= i < before.len() ==> before[i] < from,
        after == before || after == before.push(from),
        (after.len() % 2 == 1) == answer,
        forall|x: int|
            x < from ==> kept(
                keep,
                flat_points(lf).contains(x),
                flat_points(rf).contains(x),
                #[trigger] inside(before, x),
            ),
    ensures
        forall|x: int|
            x < to ==> kept(
                keep,
                flat_points(lf).contains(x),
                flat_points(rf).contains(x),
                #[trigger] inside(after, x),
            ),
{
    assert forall|x: int| x < to implies kept(
        keep,
        flat_points(lf).contains(x),
        flat_points(rf).contains(x),
        #[trigger] inside(after, x),
    ) by {
        if x < from {
            assert(kept(
                keep,
                flat_points(lf).contains(x),
                flat_points(rf).contains(x),
                inside(before, x),
            ));
            if after != before {
                lemma_inside_push(before, from, x);
            }
        } else {
            lemma_inside_beyond(after, x);
            lemma_inside_by_place(lf, li, x);
            lemma_inside_by_place(rf, ri, x);
            assert(flat_points(lf).contains(x) == (li % 2 == 1));
            assert(flat_points(rf).contains(x) == (ri % 2 == 1));
            assert(inside(after, x) == answer);
        }
    }
}

/// The end of the sweep: markers that answer for every integer below a point
/// above all markers of both operands answer for every integer.
proof fn lemma_sweep_end<F: Fn(bool, bool) -> bool>(
    keep: F,
    lf: Seq<u64>,
    rf: Seq<u64>,
    marks: Seq<u64>,
    end: u64,
)
    requires
        ascending(lf),
        ascending(rf),
        lf.len() % 2 == 0,
        rf.len() % 2 == 0,
        marks.len() % 2 == 0,
        forall|i: int| 0 <= i < lf.len() ==> lf[i] < end,
        forall|i: int| 0 <= i < rf.len() ==> rf[i] < end,
        forall|i: int| 0 <= i < marks.len() ==> marks[i] < end,
        forall|x: int|
            x < end ==> kept(
                keep,
                flat_points(lf).contains(x),
                flat_points(rf).contains(x),
                #[trigger] inside(marks, x),
            ),
    ensures
        forall|x: int|
            kept(
                keep,
                flat_points(lf).contains(x),
                flat_points(rf).contains(x),
                #[trigger] flat_points(marks).contains(x),
            ),
{
    assert forall|x: int|
        kept(
            keep,
            flat_points(lf).contains(x),
            flat_points(rf).contains(x),
            #[trigger] flat_points(marks).contains(x),
        ) by {
        if x < end {
            assert(kept(
                keep,
                flat_points(lf).contains(x),
                flat_points(rf).contains(x),
                inside(marks, x),
            ));
        } else {
            lemma_inside_beyond(marks, x);
            lemma_inside_by_place(lf, lf.len() as int, x);
            lemma_inside_by_place(rf, rf.len() as int, x);
        }
    }
}

/// Ascending markers stay ascending with a marker above them all at the end.
proof fn lemma_ascending_push(f: Seq<u64>, m: u64)
    requires
        ascending(f),
        forall|i: int| 0 <= i < f.len() ==> f[i] < m,
    ensures
        ascending(f.push(m)),
{
    reveal(ascending);
}

/// The last of ascending markers is the greatest.
proof fn lemma_ascending_last(f: Seq<u64>)
    requires
        ascending(f),
        f.len() > 0,
    ensures
        forall|i: int| 0 <= i < f.len() ==> #[trigger] f[i] <= f[f.len() - 1],
{
    reveal(ascending);
}

/// The integer `x` lies in one of the segments that start before place `end`.
pub open spec fn inside_before(f: Seq<u64>, end: int, x: int) -> bool {
    exists|k: int|
        0 <= k < end && k % 2 == 0 && k + 1 < f.len() && (#[trigger] f[k]) <= x && x < f[k + 1]
}

/// The integers that lie in one of the segments that start before place
/// `end`.
pub open spec fn points_before(f: Seq<u64>, end: int) -> Set<int> {
    Set::new(|x: int| inside_before(f, end, x))
}

/// No segment starts before the first place.
proof fn lemma_points_before_none(f: Seq<u64>)
    ensures
        points_before(f, 0) == Set::<int>::empty(),
{
    assert(points_before(f, 0) =~= Set::<int>::empty());
}

/// One pair of markers more adds the integers of the interval that the pair
/// bounds.
proof fn lemma_points_before_next(f: Seq<u64>, end: int, element: Interval)
    requires
        0 <= end,
        end % 2 == 0,
        end + 1 < f.len(),
        element.lo() == f[end],
        element.hi() == f[end + 1] - 1,
    ensures
        points_before(f, end + 2) == points_before(f, end).union(element.points()),
{
    assert forall|x: int|
        points_before(f, end + 2).contains(x) <==> points_before(f, end).union(
            element.points(),
        ).contains(x) by {
        lemma_inside_before_next(f, end, x);
    }
    assert(points_before(f, end + 2) =~= points_before(f, end).union(element.points()));
}

/// With markers in pairs, the segments that start anywhere hold the integers
/// of the list.
proof fn lemma_points_before_all(f: Seq<u64>)
    requires
        f.len() % 2 == 0,
    ensures
        points_before(f, f.len() as int) == flat_points(f),
{
    assert forall|x: int|
        points_before(f, f.len() as int).contains(x) <==> flat_points(f).contains(x) by {
        lemma_inside_before_all(f, x);
    }
    assert(points_before(f, f.len() as int) =~= flat_points(f));
}

/// The segments that start before place `end + 2` are those that start before
/// `end`, and the one that starts at `end`.
proof fn lemma_inside_before_next(f: Seq<u64>, end: int, x: int)
    requires
        0 <= end,
        end % 2 == 0,
        end + 1 < f.len(),
    ensures
        inside_before(f, end + 2, x) <==> inside_before(f, end, x) || f[end] <= x < f[end + 1],
{
    if inside_before(f, end, x) {
        let k = choose|k: int|
            0 <= k < end && k % 2 == 0 && k + 1 < f.len() && (#[trigger] f[k]) <= x && x < f[k
                + 1];
        assert(0 <= k < end + 2 && k % 2 == 0 && k + 1 < f.len() && f[k] <= x && x < f[k + 1]);
    }
    if f[end] <= x < f[end + 1] {
        assert(0 <= end < end + 2 && end % 2 == 0 && end + 1 < f.len() && f[end] <= x && x < f[end
            + 1]);
    }
    if inside_before(f, end + 2, x) {
        let k = choose|k: int|
            0 <= k < end + 2 && k % 2 == 0 && k + 1 < f.len() && (#[trigger] f[k]) <= x && x
                < f[k + 1];
        if k < end {
            assert(0 <= k < end && k % 2 == 0 && k + 1 < f.len() && f[k] <= x && x < f[k + 1]);
        } else {
            assert(k == end);
        }
    }
}

/// With markers in pairs, the segments that start anywhere are the segments
/// of the list.
proof fn lemma_inside_before_all(f: Seq<u64>, x: int)
    requires
        f.len() % 2 == 0,
    ensures
        inside_before(f, f.len() as int, x) <==> inside(f, x),
{
    if inside_before(f, f.len() as int, x) {
        let k = choose|k: int|
            0 <= k < f.len() && k % 2 == 0 && k + 1 < f.len() && (#[trigger] f[k]) <= x && x
                < f[k + 1];
        assert(0 <= k < f.len() && k % 2 == 0 && f[k] <= x && (k + 1 < f.len() ==> x < f[k + 1]));
    }
    if inside(f, x) {
        let k = choose|k: int|
            0 <= k < f.len() && k % 2 == 0 && (#[trigger] f[k]) <= x && (k + 1 < f.len() ==> x
                < f[k + 1]);
        assert(k + 1 < f.len());
        assert(0 <= k < f.len() && k % 2 == 0 && k + 1 < f.len() && f[k] <= x && x < f[k + 1]);
    }
}

impl IntervalSet {
    /// The boundary markers of the set: for each interval its lower bound,
    /// then its upper bound plus one. Those of a well-formed set ascend.
    pub fn flatten(self) -> (res: Vec<u64>)
        ensures
            res@ == flat(self.intervals()),
    {
        let ghost s = self.intervals@;
        let n: usize = self.intervals.len();
        let mut res: Vec<u64> = Vec::new();
        let mut i: usize = 0;
        while i < n
            invariant
                self.intervals@ == s,
                n == s.len(),
                i <= n,
                res.len() == 2 * i,
                forall|k: int| 0 <= k < res.len() ==> res[k] == flat(s)[k],
            decreases n - i,
        {
            let intv = self.intervals[i];
            proof {
                assert((2 * i) / 2 == i as int && (2 * i + 1) / 2 == i as int);
            }
            res.push(intv.lo as u64);
            res.push(intv.hi as u64 + 1);
            i += 1;
        }
        assert(res@ =~= flat(s));
        res
    }

    /// The set whose integers lie in the segments of `vec`: the markers are
    /// taken two by two, and each pair `(b0, b1)` gives the interval
    /// `[b0, b1 - 1]`. The pairs may come in any order and may overlap.
    pub fn unflatten(vec: Vec<u64>) -> (res: IntervalSet)
        requires
            paired(vec@),
        ensures
            res.wf(),
            res@ == flat_points(vec@),
    {
        let ghost f = vec@;
        let mut res = IntervalSet::empty();
        let n: usize = vec.len();
        let mut i: usize = 0;
        proof {
            lemma_points_before_none(f);
        }
        while i < n
            invariant
                vec@ == f,
                paired(f),
                n == f.len(),
                i <= n,
                i % 2 == 0,
                res.wf(),
                res@ == points_before(f, i as int),
            decreases n - i,
        {
            proof {
                lemma_paired_at(f, i as int);
            }
            let element = Interval { lo: vec[i] as u32, hi: (vec[i + 1] - 1) as u32 };
            res.insert(element);
            proof {
                lemma_points_before_next(f, i as int, element);
            }
            i += 2;
        }
        proof {
            lemma_points_before_all(f);
        }
        res
    }

    /// Combines two sets by a rule on memberships: an integer that is in one
    /// of the operands is in the result when `keep_operator`, given whether it
    /// is in `self` and whether it is in `rhs`, answers true. An integer in
    /// neither operand is never in the result, so the rule must answer false
    /// on `(false, false)`.
    pub fn merge<F: Fn(bool, bool) -> bool>(self, rhs: IntervalSet, keep_operator: F) -> (res:
        IntervalSet)
        requires
            self.wf(),
            rhs.wf(),
            forall|a: bool, b: bool| call_requires(keep_operator, (a, b)),
            forall|c: bool| call_ensures(keep_operator, (false, false), c) ==> !c,
        ensures
            res.wf(),
            forall|x: int|
                kept(
                    keep_operator,
                    self@.contains(x),
                    rhs@.contains(x),
                    #[trigger] res@.contains(x),
                ),
    {
        if self.is_empty() && rhs.is_empty() {
            return self;
        }
        let ghost lf = flat(self.intervals());
        let ghost rf = flat(rhs.intervals());
        proof {
            lemma_flat(self.intervals());
            lemma_flat(rhs.intervals());
        }
        let mut lflat = self.flatten();
        let mut rflat = rhs.flatten();

        let mut top: u64 = 0;
        if lflat.len() > 0 {
            top = lflat[lflat.len() - 1];
        }
        if rflat.len() > 0 && rflat[rflat.len() - 1] > top {
            top = rflat[rflat.len() - 1];
        }
        proof {
            if lf.len() > 0 {
                lemma_ascending_last(lf);
                assert(lf[lf.len() - 2] < lf[lf.len() - 2 + 1] <= u32::MAX + 1);
            }
            if rf.len() > 0 {
                lemma_ascending_last(rf);
                assert(rf[rf.len() - 2] < rf[rf.len() - 2 + 1] <= u32::MAX + 1);
            }
        }
        let sentinel: u64 = top + 1;
        lflat.push(sentinel);
        rflat.push(sentinel);
        proof {
            lemma_ascending_push(lf, sentinel);
            lemma_ascending_push(rf, sentinel);
            assert(lflat@ == lf.push(sentinel));
            assert(rflat@ == rf.push(sentinel));
        }

        let mut res: Vec<u64> = Vec::new();
        assert(ascending(res@)) by {
            reveal(ascending);
        }
        let mut li: usize = 0;
        let mut ri: usize = 0;
        let mut scan: u64 = if lflat[0] < rflat[0] {
            lflat[0]
        } else {
            rflat[0]
        };

        while scan < sentinel
            invariant
                ascending(lf),
                ascending(rf),
                lf.len() % 2 == 0,
                rf.len() % 2 == 0,
                lflat@ == lf.push(sentinel),
                rflat@ == rf.push(sentinel),
                ascending(lflat@),
                ascending(rflat@),
                forall|a: bool, b: bool| call_requires(keep_operator, (a, b)),
                forall|c: bool| call_ensures(keep_operator, (false, false), c) ==> !c,
                li <= lf.len(),
                ri <= rf.len(),
                scan == lflat@[li as int] || scan == rflat@[ri as int],
                scan <= lflat@[li as int],
                scan <= rflat@[ri as int],
                scan <= sentinel,
                li > 0 ==> lflat@[li - 1] < scan,
                ri > 0 ==> rflat@[ri - 1] < scan,
                forall|i: int| 0 <= i < res.len() ==> res[i] < scan,
                ascending(res@),
                res.len() % 2 == 1 ==> li % 2 == 1 || ri % 2 == 1,
                forall|x: int|
                    x < scan ==> kept(
                        keep_operator,
                        flat_points(lf).contains(x),
                        flat_points(rf).contains(x),
                        #[trigger] inside(res@, x),
                    ),
            decreases sentinel - scan,
        {
            let lhead: u64 = lflat[li];
            let rhead: u64 = rflat[ri];
            let lin: bool = (scan < lhead) == (li % 2 != 0);
            let rin: bool = (scan < rhead) == (ri % 2 != 0);

            let inres: bool = keep_operator(lin, rin);

            let ghost before = res@;
            let ghost from = scan;
            if inres != (res.len() % 2 != 0) {
                res.push(scan);
            }
            if scan == lhead {
                assert(li < lf.len());
                assert(li + 1 < lflat.len());
                proof {
                    lemma_ascending_at(lflat@, li as int, li + 1);
                }
                li += 1;
            }
            if scan == rhead {
                assert(ri < rf.len());
                assert(ri + 1 < rflat.len());
                proof {
                    lemma_ascending_at(rflat@, ri as int, ri + 1);
                }
                ri += 1;
            }
            scan = if lflat[li] < rflat[ri] {
                lflat[li]
            } else {
                rflat[ri]
            };
            proof {
                assert(lin == (li % 2 == 1));
                assert(rin == (ri % 2 == 1));
                assert(li > 0 ==> lf[li - 1] == lflat@[li - 1]);
                assert(ri > 0 ==> rf[ri - 1] == rflat@[ri - 1]);
                assert(li < lf.len() ==> lf[li as int] == lflat@[li as int]);
                assert(ri < rf.len() ==> rf[ri as int] == rflat@[ri as int]);
                if li < lf.len() {
                    lemma_ascending_at(lflat@, li as int, lf.len() as int);
                }
                lemma_sweep_step(
                    keep_operator,
                    lf,
                    rf,
                    li as int,
                    ri as int,
                    before,
                    res@,
                    from,
                    scan,
                    inres,
                );
                if res@ != before {
                    lemma_ascending_push(before, from);
                }
            }
        }
        proof {
            if li < lf.len() {
                lemma_ascending_at(lflat@, li as int, lf.len() as int);
            }
            if ri < rf.len() {
                lemma_ascending_at(rflat@, ri as int, rf.len() as int);
            }
            assert forall|i: int| 0 <= i < lf.len() implies lf[i] < sentinel by {
                lemma_ascending_at(lflat@, i, lf.len() as int);
            }
            assert forall|i: int| 0 <= i < rf.len() implies rf[i] < sentinel by {
                lemma_ascending_at(rflat@, i, rf.len() as int);
            }
            assert forall|i: int| 0 <= i < res@.len() && i % 2 == 0 implies (#[trigger] res@[i])
                < res@[i + 1] <= u32::MAX + 1 by {
                lemma_ascending_at(res@, i, i + 1);
            }
            lemma_sweep_end(keep_operator, lf, rf, res@, sentinel);
        }
        IntervalSet::unflatten(res)
    }

    /// The integers that are in `self` or in `rhs`.
    pub fn union(self, rhs: IntervalSet) -> (res: IntervalSet)
        requires
            self.wf(),
            rhs.wf(),
        ensures
            res.wf(),
            res@ == self@.union(rhs@),
    {
        let ghost l = self@;
        let ghost r = rhs@;
        let keep = |a: bool, b: bool| -> (c: bool)
            ensures
                c == (a || b),
            {
                a || b
            };
        let res = self.merge(rhs, keep);
        assert(res@ =~= l.union(r));
        res
    }

    /// The integers that are in `self` and in `rhs`.
    pub fn intersection(self, rhs: IntervalSet) -> (res: IntervalSet)
        requires
            self.wf(),
            rhs.wf(),
        ensures
            res.wf(),
            res@ == self@.intersect(rhs@),
    {
        let ghost l = self@;
        let ghost r = rhs@;
        let keep = |a: bool, b: bool| -> (c: bool)
            ensures
                c == (a && b),
            {
                a && b
            };
        let res = self.merge(rhs, keep);
        assert(res@ =~= l.intersect(r));
        res
    }

    /// The integers that are in `self` and not in `rhs`.
    pub fn difference(self, rhs: IntervalSet) -> (res: IntervalSet)
        requires
            self.wf(),
            rhs.wf(),
        ensures
            res.wf(),
            res@ == self@.difference(rhs@),
    {
        let ghost l = self@;
        let ghost r = rhs@;
        let keep = |a: bool, b: bool| -> (c: bool)
            ensures
                c == (a && !b),
            {
                a && !b
            };
        let res = self.merge(rhs, keep);
        assert(res@ =~= l.difference(r));
        res
    }

    /// The integers that are in exactly one of `self` and `rhs`.
    pub fn symetric_difference(self, rhs: IntervalSet) -> (res: IntervalSet)
        requires
            self.wf(),
            rhs.wf(),
        ensures
            res.wf(),
            res@ == self@.difference(rhs@).union(rhs@.difference(self@)),
    {
        let ghost l = self@;
        let ghost r = rhs@;
        let keep = |a: bool, b: bool| -> (c: bool)
            ensures
                c == (a != b),
            {
                a ^ b
            };
        let res = self.merge(rhs, keep);
        assert(res@ =~= l.difference(r).union(r.difference(l)));
        res
    }
}

} // verus!
