//! The mathematical model: which lists of intervals are in normal form, which
//! integers a list covers, and why the normal form of a set is unique.

use crate::interval::Interval;
use vstd::prelude::*;
use vstd::set_lib::*;

verus! {

/// The list is in normal form: every interval has its bounds in order, the
/// intervals ascend, and between any two of them at least one integer is left
/// out, so that no two overlap or touch.
pub open spec fn normalized(s: Seq<Interval>) -> bool {
    &&& forall|i: int| 0 <= i < s.len() ==> (#[trigger] s[i]).valid()
    &&& forall|i: int, j: int|
        0 <= i < j < s.len() ==> (#[trigger] s[i]).hi() + 1 < (#[trigger] s[j]).lo()
}

/// Some interval of the list holds `x`.
pub open spec fn covers(s: Seq<Interval>, x: int) -> bool {
    exists|i: int| 0 <= i < s.len() && (#[trigger] s[i]).contains(x)
}

/// The integers that the list covers.
pub open spec fn points(s: Seq<Interval>) -> Set<int> {
    Set::new(|x: int| covers(s, x))
}

/// The sum of the intervals' counts.
pub open spec fn total(s: Seq<Interval>) -> int
    decreases s.len(),
{
    if s.len() == 0 {
        0
    } else {
        total(s.drop_last()) + s.last().count()
    }
}

/// A list that steps from one interval to the next with a gap, as in the
/// definition by neighbours, is in normal form.
pub proof fn lemma_normalized_from_neighbours(s: Seq<Interval>)
    requires
        forall|i: int| 0 <= i < s.len() ==> (#[trigger] s[i]).valid(),
        forall|i: int| 0 <= i < s.len() - 1 ==> (#[trigger] s[i]).hi() + 1 < s[i + 1].lo(),
    ensures
        normalized(s),
{
    assert forall|i: int, j: int| 0 <= i < j < s.len() implies (#[trigger] s[i]).hi() + 1 < (
    #[trigger] s[j]).lo() by {
        lemma_gap_between(s, i, j);
    }
}

proof fn lemma_gap_between(s: Seq<Interval>, i: int, j: int)
    requires
        forall|k: int| 0 <= k < s.len() ==> (#[trigger] s[k]).valid(),
        forall|k: int| 0 <= k < s.len() - 1 ==> (#[trigger] s[k]).hi() + 1 < s[k + 1].lo(),
        0 <= i < j < s.len(),
    ensures
        s[i].hi() + 1 < s[j].lo(),
    decreases j - i,
{
    if j > i + 1 {
        lemma_gap_between(s, i, j - 1);
        assert(s[j - 1].valid());
        assert(s[j - 1].hi() + 1 < s[j - 1 + 1].lo());
    } else {
        assert(s[i].hi() + 1 < s[i + 1].lo());
    }
}

/// A list in normal form without its last interval is in normal form, and
/// covers what the whole list covers below the last interval.
pub proof fn lemma_drop_last(s: Seq<Interval>)
    requires
        normalized(s),
        s.len() > 0,
    ensures
        normalized(s.drop_last()),
        forall|x: int| covers(s.drop_last(), x) <==> covers(s, x) && x < s.last().lo(),
        forall|x: int| covers(s, x) ==> x <= s.last().hi(),
{
    let t = s.drop_last();
    assert forall|x: int| covers(t, x) <==> covers(s, x) && x < s.last().lo() by {
        if covers(t, x) {
            let i = choose|i: int| 0 <= i < t.len() && (#[trigger] t[i]).contains(x);
            assert(t[i] == s[i]);
            assert(s[i].hi() + 1 < s[s.len() - 1].lo());
        }
        if covers(s, x) && x < s.last().lo() {
            let i = choose|i: int| 0 <= i < s.len() && (#[trigger] s[i]).contains(x);
            assert(s[s.len() - 1].valid());
            assert(i < s.len() - 1);
            assert(t[i].contains(x));
        }
    }
    assert forall|x: int| covers(s, x) implies x <= s.last().hi() by {
        let i = choose|i: int| 0 <= i < s.len() && (#[trigger] s[i]).contains(x);
        assert(s[s.len() - 1].valid());
        if i < s.len() - 1 {
            assert(s[i].hi() + 1 < s[s.len() - 1].lo());
        }
    }
}

/// Two lists in normal form that cover the same integers end in the same
/// interval.
proof fn lemma_same_last(a: Seq<Interval>, b: Seq<Interval>)
    requires
        normalized(a),
        normalized(b),
        a.len() > 0,
        b.len() > 0,
        forall|x: int| covers(a, x) <==> covers(b, x),
        a.last().hi() == b.last().hi(),
    ensures
        b.last().lo() <= a.last().lo(),
{
    let la = a.last();
    let lb = b.last();
    assert(a[a.len() - 1].valid());
    assert(b[b.len() - 1].valid());
    assert(a[a.len() - 1].contains(la.lo()));
    assert(covers(b, la.lo()));
    let j = choose|j: int| 0 <= j < b.len() && (#[trigger] b[j]).contains(la.lo());
    if j < b.len() - 1 {
        assert(b[j].hi() + 1 < b[b.len() - 1].lo());
        let x = lb.lo() - 1;
        assert(a[a.len() - 1].contains(x));
        assert(covers(b, x));
        let k = choose|k: int| 0 <= k < b.len() && (#[trigger] b[k]).contains(x);
        if k < b.len() - 1 {
            assert(b[k].hi() + 1 < b[b.len() - 1].lo());
        }
        assert(false);
    }
}

/// Normal forms are unique: two lists in normal form that cover the same
/// integers are the same list.
pub proof fn lemma_normal_form_unique(a: Seq<Interval>, b: Seq<Interval>)
    requires
        normalized(a),
        normalized(b),
        points(a) == points(b),
    ensures
        a == b,
    decreases a.len(),
{
    assert forall|x: int| covers(a, x) <==> covers(b, x) by {
        assert(points(a).contains(x) == covers(a, x));
        assert(points(b).contains(x) == covers(b, x));
    }
    if a.len() == 0 {
        if b.len() > 0 {
            assert(b[0].valid());
            assert(b[0].contains(b[0].lo()));
            assert(covers(b, b[0].lo()));
            let i = choose|i: int| 0 <= i < a.len() && (#[trigger] a[i]).contains(b[0].lo());
        }
        assert(a =~= b);
    } else {
        assert(a[a.len() - 1].valid());
        assert(a[a.len() - 1].contains(a.last().hi()));
        assert(covers(b, a.last().hi()));
        let w = choose|i: int| 0 <= i < b.len() && (#[trigger] b[i]).contains(a.last().hi());
        assert(b[b.len() - 1].valid());
        assert(b[b.len() - 1].contains(b.last().hi()));
        assert(covers(a, b.last().hi()));
        lemma_drop_last(a);
        lemma_drop_last(b);
        assert(a.last().hi() == b.last().hi());
        lemma_same_last(a, b);
        lemma_same_last(b, a);
        assert(a.last() == b.last());
        assert forall|x: int|
            points(a.drop_last()).contains(x) <==> points(b.drop_last()).contains(x) by {
            assert(covers(a.drop_last(), x) <==> covers(a, x) && x < a.last().lo());
            assert(covers(b.drop_last(), x) <==> covers(b, x) && x < b.last().lo());
        }
        assert(points(a.drop_last()) =~= points(b.drop_last()));
        lemma_normal_form_unique(a.drop_last(), b.drop_last());
        assert(a =~= a.drop_last().push(a.last()));
        assert(b =~= b.drop_last().push(b.last()));
    }
}

/// A list put together from two lists covers what either of them covers.
pub proof fn lemma_covers_concat(a: Seq<Interval>, b: Seq<Interval>)
    ensures
        forall|x: int| covers(a + b, x) <==> covers(a, x) || covers(b, x),
{
    let c = a + b;
    assert forall|x: int| covers(c, x) <==> covers(a, x) || covers(b, x) by {
        if covers(c, x) {
            let i = choose|i: int| 0 <= i < c.len() && (#[trigger] c[i]).contains(x);
            if i < a.len() {
                assert(a[i].contains(x));
            } else {
                assert(b[i - a.len()].contains(x));
            }
        }
        if covers(a, x) {
            let i = choose|i: int| 0 <= i < a.len() && (#[trigger] a[i]).contains(x);
            assert(c[i].contains(x));
        }
        if covers(b, x) {
            let i = choose|i: int| 0 <= i < b.len() && (#[trigger] b[i]).contains(x);
            assert(c[i + a.len()].contains(x));
        }
    }
}

/// A list with one more interval at its end covers what the list covers and
/// what the interval holds.
pub proof fn lemma_covers_push(a: Seq<Interval>, e: Interval)
    ensures
        forall|x: int| covers(a.push(e), x) <==> covers(a, x) || e.contains(x),
{
    lemma_covers_concat(a, seq![e]);
    assert(a.push(e) =~= a + seq![e]);
    assert forall|x: int| covers(seq![e], x) <==> e.contains(x) by {
        if covers(seq![e], x) {
            let i = choose|i: int| 0 <= i < seq![e].len() && (#[trigger] seq![e][i]).contains(x);
        }
        if e.contains(x) {
            assert(seq![e][0].contains(x));
        }
    }
}

/// As far as `x` goes, the range from `lo` to `hi` holds just the integers of
/// `element` and of the intervals of `mid`.
pub open spec fn gathers_at(
    lo: int,
    hi: int,
    element: Interval,
    mid: Seq<Interval>,
    x: int,
) -> bool {
    lo <= x <= hi <==> element.contains(x) || covers(mid, x)
}

/// The range from `lo` to `hi` holds just the integers of `element` and of the
/// intervals of `mid`.
pub open spec fn gathers(lo: int, hi: int, element: Interval, mid: Seq<Interval>) -> bool {
    forall|x: int| #[trigger] gathers_at(lo, hi, element, mid, x)
}

/// An empty list covers nothing.
pub proof fn lemma_covers_none(x: int)
    ensures
        !covers(Seq::<Interval>::empty(), x),
{
    let none = Seq::<Interval>::empty();
    if covers(none, x) {
        let i = choose|i: int| 0 <= i < none.len() && (#[trigger] none[i]).contains(x);
    }
}

/// An interval gathers itself and an empty list.
pub proof fn lemma_gathers_none(element: Interval)
    ensures
        gathers(element.lo(), element.hi(), element, Seq::<Interval>::empty()),
{
    assert forall|x: int| #[trigger]
        gathers_at(element.lo(), element.hi(), element, Seq::<Interval>::empty(), x) by {
        lemma_covers_none(x);
    }
}

/// A range takes up an interval that overlaps or touches it by stretching to
/// the lower of the two lower bounds and the higher of the two upper bounds.
pub proof fn lemma_gathers_more(
    lo: int,
    hi: int,
    element: Interval,
    mid: Seq<Interval>,
    next: Interval,
    l: int,
    h: int,
)
    requires
        gathers(lo, hi, element, mid),
        lo <= hi,
        next.valid(),
        lo <= next.hi() + 1,
        next.lo() <= hi + 1,
        l <= lo && l <= next.lo() && (l == lo || l == next.lo()),
        h >= hi && h >= next.hi() && (h == hi || h == next.hi()),
    ensures
        gathers(l, h, element, mid.push(next)),
{
    lemma_covers_push(mid, next);
    assert forall|x: int| #[trigger] gathers_at(l, h, element, mid.push(next), x) by {
        assert(covers(mid.push(next), x) <==> covers(mid, x) || next.contains(x));
        assert(gathers_at(lo, hi, element, mid, x));
    }
}

/// What insertion builds. Out of a list in normal form, the intervals from
/// place `k` up to place `p` are taken and one interval is put in their
/// stead, which gathers them and `element`, lies with a gap above the
/// intervals before `k` and with a gap below those from `p` on. The new list
/// is in normal form, and covers what the old list and `element` cover.
pub proof fn lemma_spliced(
    s: Seq<Interval>,
    k: int,
    p: int,
    candidate: Interval,
    element: Interval,
)
    requires
        normalized(s),
        0 <= k <= p <= s.len(),
        candidate.valid(),
        forall|i: int| 0 <= i < k ==> (#[trigger] s[i]).hi() + 1 < candidate.lo(),
        p < s.len() ==> candidate.hi() + 1 < s[p].lo(),
        gathers(candidate.lo(), candidate.hi(), element, s.subrange(k, p)),
    ensures
        normalized(s.subrange(0, k).push(candidate) + s.subrange(p, s.len() as int)),
        points(s.subrange(0, k).push(candidate) + s.subrange(p, s.len() as int)) == points(
            s,
        ).union(element.points()),
{
    let pre = s.subrange(0, k);
    let mid = s.subrange(k, p);
    let post = s.subrange(p, s.len() as int);
    let r = pre.push(candidate) + post;
    assert(s =~= pre + mid + post);
    assert forall|i: int| 0 <= i < r.len() implies (#[trigger] r[i]).valid() by {
        if i < k {
            assert(r[i] == s[i]);
        } else if i > k {
            assert(r[i] == s[i - k - 1 + p]);
        }
    }
    assert forall|i: int, j: int| 0 <= i < j < r.len() implies (#[trigger] r[i]).hi() + 1 < (
    #[trigger] r[j]).lo() by {
        if j > k {
            let jj = j - k - 1 + p;
            assert(r[j] == s[jj]);
            assert(s[p].valid());
            if jj > p {
                assert(s[p].hi() + 1 < s[jj].lo());
            }
            if i < k {
                assert(r[i] == s[i]);
                assert(s[i].hi() + 1 < s[jj].lo());
            } else if i > k {
                assert(r[i] == s[i - k - 1 + p]);
            }
        } else {
            assert(r[i] == s[i]);
            if j < k {
                assert(r[j] == s[j]);
            }
        }
    }
    lemma_covers_concat(pre.push(candidate), post);
    lemma_covers_push(pre, candidate);
    lemma_covers_concat(pre + mid, post);
    lemma_covers_concat(pre, mid);
    assert forall|x: int|
        points(r).contains(x) <==> points(s).union(element.points()).contains(x) by {
        assert(gathers_at(candidate.lo(), candidate.hi(), element, mid, x));
        assert(candidate.contains(x) <==> element.contains(x) || covers(mid, x));
        assert(covers(r, x) <==> covers(pre.push(candidate), x) || covers(post, x));
        assert(covers(pre.push(candidate), x) <==> covers(pre, x) || candidate.contains(x));
        assert(covers(s, x) <==> covers(pre + mid, x) || covers(post, x));
        assert(covers(pre + mid, x) <==> covers(pre, x) || covers(mid, x));
    }
    assert(points(r) =~= points(s).union(element.points()));
}

/// The integers of one interval are finitely many, as many as its count.
pub proof fn lemma_interval_count(i: Interval)
    requires
        i.valid(),
    ensures
        i.points().finite(),
        i.points().len() == i.count(),
{
    lemma_int_range(i.lo(), i.hi() + 1);
    assert(i.points() =~= set_int_range(i.lo(), i.hi() + 1));
}

/// A list in normal form covers finitely many integers, and as many as its
/// intervals' counts add up to.
pub proof fn lemma_points_count(s: Seq<Interval>)
    requires
        normalized(s),
    ensures
        points(s).finite(),
        points(s).len() == total(s),
    decreases s.len(),
{
    if s.len() == 0 {
        assert(points(s) =~= Set::empty());
    } else {
        let t = s.drop_last();
        lemma_drop_last(s);
        lemma_points_count(t);
        lemma_interval_count(s.last());
        assert(s[s.len() - 1].valid());
        assert forall|x: int| points(s).contains(x) <==> points(t).contains(x)
            || s.last().points().contains(x) by {
            if s.last().contains(x) {
                assert(s[s.len() - 1].contains(x));
            }
            if covers(s, x) && !(x < s.last().lo()) {
                assert(x <= s.last().hi());
            }
        }
        assert(points(s) =~= points(t).union(s.last().points()));
        assert(points(t).disjoint(s.last().points()));
        lemma_set_disjoint_lens(points(t), s.last().points());
    }
}

/// The counts of a list's first intervals add up to no more than those of the
/// whole list, and one interval more adds its count.
pub proof fn lemma_total_prefix(s: Seq<Interval>, n: int)
    requires
        forall|i: int| 0 <= i < s.len() ==> (#[trigger] s[i]).valid(),
        0 <= n <= s.len(),
    ensures
        0 <= total(s.subrange(0, n)) <= total(s),
        n < s.len() ==> total(s.subrange(0, n + 1)) == total(s.subrange(0, n)) + s[n].count(),
    decreases s.len() - n,
{
    if n < s.len() {
        lemma_total_prefix(s, n + 1);
        assert(s.subrange(0, n + 1).drop_last() =~= s.subrange(0, n));
        assert(s[n].valid());
        if n == 0 {
            assert(total(s.subrange(0, 0)) == 0);
        } else {
            lemma_total_nonnegative(s.subrange(0, n));
        }
    } else {
        assert(s.subrange(0, n) =~= s);
        lemma_total_nonnegative(s);
    }
}

/// Counts of intervals with their bounds in order add up to no less than zero.
pub proof fn lemma_total_nonnegative(s: Seq<Interval>)
    requires
        forall|i: int| 0 <= i < s.len() ==> (#[trigger] s[i]).valid(),
    ensures
        0 <= total(s),
    decreases s.len(),
{
    if s.len() > 0 {
        lemma_total_nonnegative(s.drop_last());
        assert(s[s.len() - 1].valid());
    }
}

/// The interval at place `k` is the first of the list among those that cover
/// the most integers.
pub open spec fn first_largest(s: Seq<Interval>, k: int) -> bool {
    &&& 0 <= k < s.len()
    &&& forall|j: int| 0 <= j < s.len() ==> (#[trigger] s[j]).count() <= s[k].count()
    &&& forall|j: int| 0 <= j < k ==> (#[trigger] s[j]).count() < s[k].count()
}

/// A list in normal form covers only integers that a `u32` holds.
pub proof fn lemma_points_bounded(s: Seq<Interval>)
    ensures
        forall|x: int| covers(s, x) ==> 0 <= x <= u32::MAX,
{
    assert forall|x: int| covers(s, x) implies 0 <= x <= u32::MAX by {
        let i = choose|i: int| 0 <= i < s.len() && (#[trigger] s[i]).contains(x);
    }
}

} // verus!
