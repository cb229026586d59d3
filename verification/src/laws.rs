//! What holds of the sets and of the operations on them, whatever the sets.
//!
//! An operation's result is known by what its contract says of it. So a law
//! on results takes, beside the operands, any sets that meet the contracts of
//! the operations in question, and states what holds of them.

use crate::interval::Interval;
use crate::merge::{flat, flat_points, lemma_flat, paired};
use crate::model::{
    lemma_covers_none, lemma_normal_form_unique, lemma_normalized_from_neighbours,
    lemma_points_bounded, lemma_points_count, points, total,
};
use crate::set::IntervalSet;
use crate::text::{intervals_text, lemma_text_reads_back, text_describes};
use vstd::prelude::*;
use vstd::set_lib::*;
use vstd::std_specs::cmp::PartialEqSpec;

verus! {

/// The normal form, by neighbours: in a well-formed set every interval has
/// its bounds in order, the intervals ascend by their lower bounds, each ends
/// below the start of the next, and at least one integer lies between the two.
pub proof fn law_normal_form(s: IntervalSet)
    requires
        s.wf(),
    ensures
        forall|i: int|
            0 <= i < s.intervals().len() ==> (#[trigger] s.intervals()[i]).lo()
                <= s.intervals()[i].hi(),
        forall|i: int|
            0 <= i < s.intervals().len() - 1 ==> (#[trigger] s.intervals()[i]).lo()
                < s.intervals()[i + 1].lo(),
        forall|i: int|
            0 <= i < s.intervals().len() - 1 ==> (#[trigger] s.intervals()[i]).hi()
                < s.intervals()[i + 1].lo(),
        forall|i: int|
            0 <= i < s.intervals().len() - 1 ==> (#[trigger] s.intervals()[i]).hi() + 1
                < s.intervals()[i + 1].lo(),
{
    let q = s.intervals();
    assert forall|i: int| 0 <= i < q.len() - 1 implies (#[trigger] q[i]).hi() + 1 < q[i
        + 1].lo() by {
        assert(q[i].hi() + 1 < q[i + 1].lo());
    }
    assert forall|i: int| 0 <= i < q.len() - 1 implies (#[trigger] q[i]).lo() < q[i + 1].lo() by {
        assert(q[i].valid());
        assert(q[i].hi() + 1 < q[i + 1].lo());
    }
    assert forall|i: int| 0 <= i < q.len() implies (#[trigger] q[i]).lo() <= q[i].hi() by {
        assert(q[i].valid());
    }
}

/// The normal form, from neighbours: a set whose intervals have their bounds
/// in order, and of which each ends more than one below the start of the
/// next, is well-formed.
pub proof fn law_normal_form_from_neighbours(s: IntervalSet)
    requires
        forall|i: int|
            0 <= i < s.intervals().len() ==> (#[trigger] s.intervals()[i]).lo()
                <= s.intervals()[i].hi(),
        forall|i: int|
            0 <= i < s.intervals().len() - 1 ==> (#[trigger] s.intervals()[i]).hi() + 1
                < s.intervals()[i + 1].lo(),
    ensures
        s.wf(),
{
    let q = s.intervals();
    assert forall|i: int| 0 <= i < q.len() implies (#[trigger] q[i]).valid() by {
        assert(q[i].lo() <= q[i].hi());
    }
    lemma_normalized_from_neighbours(q);
}

/// Two well-formed sets with the same elements hold the same intervals: a
/// set has one normal form.
pub proof fn law_same_elements_same_intervals(a: IntervalSet, b: IntervalSet)
    requires
        a.wf(),
        b.wf(),
        a@ == b@,
    ensures
        a.intervals() == b.intervals(),
{
    lemma_normal_form_unique(a.intervals(), b.intervals());
}

/// What `==` means: two well-formed sets compare equal when they have the
/// same elements, and only then.
pub proof fn law_equal_sets(a: IntervalSet, b: IntervalSet)
    requires
        a.wf(),
        b.wf(),
    ensures
        a.eq_spec(&b) <==> a@ == b@,
{
    if a@ == b@ {
        law_same_elements_same_intervals(a, b);
    }
}

/// Union is commutative: the union of `a` and `b` and the union of `b` and
/// `a` have the same elements and hold the same intervals.
pub proof fn law_union_commutative(a: IntervalSet, b: IntervalSet, ab: IntervalSet, ba: IntervalSet)
    requires
        a.wf(),
        b.wf(),
        ab.wf(),
        ab@ == a@.union(b@),
        ba.wf(),
        ba@ == b@.union(a@),
    ensures
        ab@ == ba@,
        ab.intervals() == ba.intervals(),
{
    assert(ab@ =~= ba@);
    law_same_elements_same_intervals(ab, ba);
}

/// Union is associative: the union of `a` with `b`, joined with `c`, and `a`
/// joined with the union of `b` with `c`, have the same elements and hold the
/// same intervals.
pub proof fn law_union_associative(
    a: IntervalSet,
    b: IntervalSet,
    c: IntervalSet,
    ab: IntervalSet,
    ab_c: IntervalSet,
    bc: IntervalSet,
    a_bc: IntervalSet,
)
    requires
        a.wf(),
        b.wf(),
        c.wf(),
        ab.wf(),
        ab@ == a@.union(b@),
        ab_c.wf(),
        ab_c@ == ab@.union(c@),
        bc.wf(),
        bc@ == b@.union(c@),
        a_bc.wf(),
        a_bc@ == a@.union(bc@),
    ensures
        ab_c@ == a_bc@,
        ab_c.intervals() == a_bc.intervals(),
{
    assert(ab_c@ =~= a_bc@);
    law_same_elements_same_intervals(ab_c, a_bc);
}

/// Intersection is commutative: the intersection of `a` and `b` and the
/// intersection of `b` and `a` have the same elements and hold the same
/// intervals.
pub proof fn law_intersection_commutative(
    a: IntervalSet,
    b: IntervalSet,
    ab: IntervalSet,
    ba: IntervalSet,
)
    requires
        a.wf(),
        b.wf(),
        ab.wf(),
        ab@ == a@.intersect(b@),
        ba.wf(),
        ba@ == b@.intersect(a@),
    ensures
        ab@ == ba@,
        ab.intervals() == ba.intervals(),
{
    assert(ab@ =~= ba@);
    law_same_elements_same_intervals(ab, ba);
}

/// The difference of a set and itself is empty: it has no element and holds
/// no interval.
pub proof fn law_difference_of_self(a: IntervalSet, d: IntervalSet)
    requires
        a.wf(),
        d.wf(),
        d@ == a@.difference(a@),
    ensures
        d@ == Set::<int>::empty(),
        d.intervals() == Seq::<Interval>::empty(),
{
    assert(d@ =~= Set::<int>::empty());
    assert(points(Seq::<Interval>::empty()) =~= Set::<int>::empty()) by {
        assert forall|x: int| !points(Seq::<Interval>::empty()).contains(x) by {
            lemma_covers_none(x);
        }
    }
    lemma_normal_form_unique(d.intervals(), Seq::<Interval>::empty());
}

/// The symmetric difference of `a` and `b` is the union of the difference of
/// `a` and `b` with the difference of `b` and `a`: the two have the same
/// elements and hold the same intervals.
pub proof fn law_symmetric_difference(
    a: IntervalSet,
    b: IntervalSet,
    sym: IntervalSet,
    a_less_b: IntervalSet,
    b_less_a: IntervalSet,
    both: IntervalSet,
)
    requires
        a.wf(),
        b.wf(),
        sym.wf(),
        sym@ == a@.difference(b@).union(b@.difference(a@)),
        a_less_b.wf(),
        a_less_b@ == a@.difference(b@),
        b_less_a.wf(),
        b_less_a@ == b@.difference(a@),
        both.wf(),
        both@ == a_less_b@.union(b_less_a@),
    ensures
        sym@ == both@,
        sym.intervals() == both.intervals(),
        forall|x: int| sym@.contains(x) <==> (a@.contains(x) != b@.contains(x)),
{
    assert(sym@ =~= both@);
    law_same_elements_same_intervals(sym, both);
}

/// The union of a set with the empty set is the set itself.
pub proof fn law_union_with_empty(a: IntervalSet, e: IntervalSet, u: IntervalSet)
    requires
        a.wf(),
        e.wf(),
        e@ == Set::<int>::empty(),
        u.wf(),
        u@ == a@.union(e@),
    ensures
        u@ == a@,
        u.intervals() == a.intervals(),
{
    assert(u@ =~= a@);
    law_same_elements_same_intervals(u, a);
}

/// The intersection of a set with the empty set is empty.
pub proof fn law_intersection_with_empty(a: IntervalSet, e: IntervalSet, i: IntervalSet)
    requires
        a.wf(),
        e.wf(),
        e@ == Set::<int>::empty(),
        i.wf(),
        i@ == a@.intersect(e@),
    ensures
        i@ == Set::<int>::empty(),
        i.intervals() == e.intervals(),
{
    assert(i@ =~= e@);
    law_same_elements_same_intervals(i, e);
}

/// Flattening loses nothing: the markers of a well-formed set come in pairs
/// that `unflatten` accepts, the segments between them hold just the elements
/// of the set, and a set built from them holds the same intervals.
pub proof fn law_round_trip(s: IntervalSet, back: IntervalSet)
    requires
        s.wf(),
        back.wf(),
        back@ == flat_points(flat(s.intervals())),
    ensures
        paired(flat(s.intervals())),
        flat_points(flat(s.intervals())) == s@,
        back.intervals() == s.intervals(),
{
    lemma_flat(s.intervals());
    law_same_elements_same_intervals(back, s);
}

/// Writing loses nothing: the text of a well-formed set stands for the
/// elements of the set, and a set read from it holds the same intervals.
pub proof fn law_text_round_trip(s: IntervalSet, back: IntervalSet)
    requires
        s.wf(),
        back.wf(),
        text_describes(intervals_text(s.intervals()), Ok(back@)),
    ensures
        text_describes(intervals_text(s.intervals()), Ok(s@)),
        back@ == s@,
        back.intervals() == s.intervals(),
{
    let q = s.intervals();
    assert forall|i: int| 0 <= i < q.len() implies (#[trigger] q[i]).valid() by {
    }
    lemma_text_reads_back(q);
    law_same_elements_same_intervals(back, s);
}

/// A well-formed set has finitely many elements, as many as the counts of its
/// intervals add up to.
pub proof fn law_size_is_count(s: IntervalSet)
    requires
        s.wf(),
    ensures
        s@.finite(),
        s@.len() == total(s.intervals()),
{
    lemma_points_count(s.intervals());
}

/// Sizes add up: the size of the union of two sets and the size of their
/// intersection together are the sizes of the two sets together.
pub proof fn law_size_additive(a: IntervalSet, b: IntervalSet, u: IntervalSet, i: IntervalSet)
    requires
        a.wf(),
        b.wf(),
        u.wf(),
        u@ == a@.union(b@),
        i.wf(),
        i@ == a@.intersect(b@),
    ensures
        u@.len() + i@.len() == a@.len() + b@.len(),
        total(u.intervals()) + total(i.intervals()) == total(a.intervals()) + total(
            b.intervals(),
        ),
{
    lemma_points_count(a.intervals());
    lemma_points_count(b.intervals());
    lemma_points_count(u.intervals());
    lemma_points_count(i.intervals());
    lemma_set_intersect_union_lens(a@, b@);
}

/// A `u32` can count the elements of every well-formed set but one: the set
/// of all `u32` integers, which is the one interval from zero to `u32::MAX`.
pub proof fn law_size_fits(s: IntervalSet)
    requires
        s.wf(),
    ensures
        s@.len() <= u32::MAX + 1,
        s@.len() > u32::MAX <==> s.intervals().len() == 1 && s.intervals()[0].lo() == 0
            && s.intervals()[0].hi() == u32::MAX,
{
    let q = s.intervals();
    let all = set_int_range(0, u32::MAX + 1);
    lemma_int_range(0, u32::MAX + 1);
    lemma_points_count(q);
    lemma_points_bounded(q);
    assert(s@.subset_of(all));
    lemma_len_subset(s@, all);
    if q.len() == 1 && q[0].lo() == 0 && q[0].hi() == u32::MAX {
        assert(total(q.drop_last()) == 0);
    } else {
        let p: int = if q.len() == 0 {
            0
        } else if q[0].lo() > 0 {
            0
        } else if q[q.len() - 1].hi() < u32::MAX {
            u32::MAX as int
        } else {
            q[0].hi() + 1
        };
        assert(!s@.contains(p)) by {
            if s@.contains(p) {
                let k = choose|k: int| 0 <= k < q.len() && (#[trigger] q[k]).contains(p);
                assert(q[0].valid());
                assert(q[q.len() - 1].valid());
                if k > 0 {
                    assert(q[0].hi() + 1 < q[k].lo());
                }
                if k < q.len() - 1 {
                    assert(q[k].hi() + 1 < q[q.len() - 1].lo());
                }
            }
        }
        assert(0 <= p <= u32::MAX) by {
            if q.len() > 0 {
                assert(q[0].valid());
                if q.len() > 1 {
                    assert(q[0].hi() + 1 < q[1].lo());
                }
            }
        }
        assert(s@.subset_of(all.remove(p)));
        lemma_len_subset(s@, all.remove(p));
    }
}

} // verus!
