//! Collections of intervals, and the operators on intervals and
//! collections.
//!
//! The operators are those of `core::ops`: `+` for union, `-` for
//! difference and `&` for intersection, each between intervals, between
//! collections, and between one of each.
//!
//! A collection is known by its view alone: two collections with the same
//! intervals cannot be told apart in a contract, and cannot be proved to be
//! one value either. So an operator that returns a collection states in its
//! own `ensures` what the view of the result is, and its specification
//! function (`add_spec` and the like) only names some collection with that
//! view; `obeys_add_spec` and the like are false, which says that the
//! result need not be that very collection.

use super::interval::Interval;
use super::scalar::{Difference, Scalar};
use super::span::{
    is_union, meet_all, meet_each, non_overlapping, subtract, subtract_all, total_length,
    well_formed, Span,
};
use super::sweep::union;
use core::ops::{Add, BitAnd, Sub};
use vstd::prelude::*;
use vstd::std_specs::ops::{AddSpecImpl, BitAndSpecImpl, SubSpecImpl};

verus! {

/// A sequence of intervals.
#[derive(Debug)]
pub struct IntervalCollection<T> {
    pub elts: Vec<Interval<T>>,
}

/// The intervals as intervals of integers.
pub open spec fn spans_of<T: Scalar>(elts: Seq<Interval<T>>) -> Seq<Span> {
    elts.map_values(|i: Interval<T>| i@)
}

impl<T: Scalar> View for IntervalCollection<T> {
    type V = Seq<Span>;

    open spec fn view(&self) -> Seq<Span> {
        spans_of(self.elts@)
    }
}

impl<T: Scalar> Clone for IntervalCollection<T> {
    /// A collection of the same intervals.
    fn clone(&self) -> (r: IntervalCollection<T>)
        ensures
            r@ == self@,
    {
        let mut elts: Vec<Interval<T>> = Vec::new();
        let mut i: usize = 0;
        while i < self.elts.len()
            invariant
                i <= self.elts@.len(),
                elts@ == self.elts@.take(i as int),
            decreases self.elts.len() - i,
        {
            elts.push(self.elts[i]);
            assert(elts@ =~= self.elts@.take(i + 1));
            i += 1;
        }
        assert(self.elts@.take(i as int) =~= self.elts@);
        IntervalCollection { elts }
    }
}

impl<T: Scalar> IntervalCollection<T> {
    /// The sum of the durations of the intervals, each of which has its
    /// ends in order.
    pub fn total_duration(&self) -> (r: T::Delta)
        requires
            well_formed(self@),
            <T::Delta as Difference>::in_range(total_length(self@)),
        ensures
            r.amount() == total_length(self@),
    {
        let mut total = <T::Delta as Difference>::zero();
        let mut i: usize = 0;
        proof {
            <T::Delta as Difference>::lemma_amount_in_range(total);
            assert(self@.take(0) =~= Seq::<Span>::empty());
        }
        while i < self.elts.len()
            invariant
                i <= self.elts@.len(),
                well_formed(self@),
                <T::Delta as Difference>::in_range(0),
                <T::Delta as Difference>::in_range(total_length(self@)),
                total.amount() == total_length(self@.take(i as int)),
            decreases self.elts.len() - i,
        {
            let elt = self.elts[i];
            proof {
                assert(self@.take(i + 1).drop_last() =~= self@.take(i as int));
                assert(self@.take(i + 1).last() == elt@);
                assert(self@[i as int] == elt@);
                super::laws::lemma_total_length_of_prefix(self@, i as int);
                super::laws::lemma_total_length_of_prefix(self@, i + 1);
                <T::Delta as Difference>::lemma_range_is_convex(
                    0,
                    elt@.length(),
                    total_length(self@),
                );
                <T::Delta as Difference>::lemma_range_is_convex(
                    0,
                    total_length(self@.take(i + 1)),
                    total_length(self@),
                );
            }
            total = total.plus(elt.duration());
            i += 1;
        }
        assert(self@.take(i as int) =~= self@);
        total
    }
}

/* Union */

impl<T: Scalar> AddSpecImpl for Interval<T> {
    open spec fn obeys_add_spec() -> bool {
        false
    }

    open spec fn add_req(self, other: Interval<T>) -> bool {
        self@.well_formed() && other@.well_formed()
    }

    open spec fn add_spec(self, other: Interval<T>) -> IntervalCollection<T> {
        choose|c: IntervalCollection<T>| is_union(c@, seq![self@, other@])
    }
}

impl<T: Scalar> Add for Interval<T> {
    type Output = IntervalCollection<T>;

    /// The union of the two intervals, each of which has its ends in order:
    /// one run if they overlap or touch, two otherwise, the lower one first.
    fn add(self, other: Interval<T>) -> (r: IntervalCollection<T>)
        ensures
            is_union(r@, seq![self@, other@]),
    {
        let mut left: Vec<Interval<T>> = Vec::new();
        left.push(self);
        let mut right: Vec<Interval<T>> = Vec::new();
        right.push(other);
        assert(spans_of(left@) + spans_of(right@) =~= seq![self@, other@]);
        IntervalCollection { elts: union(&left, &right) }
    }
}

impl<T: Scalar> AddSpecImpl<IntervalCollection<T>> for Interval<T> {
    open spec fn obeys_add_spec() -> bool {
        false
    }

    open spec fn add_req(self, other: IntervalCollection<T>) -> bool {
        self@.well_formed() && well_formed(other@)
    }

    open spec fn add_spec(self, other: IntervalCollection<T>) -> IntervalCollection<T> {
        choose|c: IntervalCollection<T>| is_union(c@, seq![self@] + other@)
    }
}

impl<T: Scalar> Add<IntervalCollection<T>> for Interval<T> {
    type Output = IntervalCollection<T>;

    /// The union of the interval and the intervals of `other`, each of
    /// which has its ends in order.
    fn add(self, other: IntervalCollection<T>) -> (r: IntervalCollection<T>)
        ensures
            is_union(r@, seq![self@] + other@),
    {
        let mut left: Vec<Interval<T>> = Vec::new();
        left.push(self);
        assert(spans_of(left@) =~= seq![self@]);
        IntervalCollection { elts: union(&left, &other.elts) }
    }
}

impl<T: Scalar> AddSpecImpl<Interval<T>> for IntervalCollection<T> {
    open spec fn obeys_add_spec() -> bool {
        false
    }

    open spec fn add_req(self, other: Interval<T>) -> bool {
        well_formed(self@) && other@.well_formed()
    }

    open spec fn add_spec(self, other: Interval<T>) -> IntervalCollection<T> {
        choose|c: IntervalCollection<T>| is_union(c@, self@ + seq![other@])
    }
}

impl<T: Scalar> Add<Interval<T>> for IntervalCollection<T> {
    type Output = IntervalCollection<T>;

    /// The union of the intervals of the collection and `other`, each of
    /// which has its ends in order.
    fn add(self, other: Interval<T>) -> (r: IntervalCollection<T>)
        ensures
            is_union(r@, self@ + seq![other@]),
    {
        let mut right: Vec<Interval<T>> = Vec::new();
        right.push(other);
        assert(spans_of(right@) =~= seq![other@]);
        IntervalCollection { elts: union(&self.elts, &right) }
    }
}

impl<T: Scalar> AddSpecImpl for IntervalCollection<T> {
    open spec fn obeys_add_spec() -> bool {
        false
    }

    open spec fn add_req(self, other: IntervalCollection<T>) -> bool {
        well_formed(self@) && well_formed(other@)
    }

    open spec fn add_spec(self, other: IntervalCollection<T>) -> IntervalCollection<T> {
        choose|c: IntervalCollection<T>| is_union(c@, self@ + other@)
    }
}

impl<T: Scalar> Add for IntervalCollection<T> {
    type Output = IntervalCollection<T>;

    /// The union of the intervals of the two collections, each of which has
    /// its ends in order. Neither collection needs to be sorted, and either
    /// may be empty. The result is the runs that the intervals cover, in
    /// rising order, each ending before the next one starts.
    fn add(self, other: IntervalCollection<T>) -> (r: IntervalCollection<T>)
        ensures
            is_union(r@, self@ + other@),
    {
        IntervalCollection { elts: union(&self.elts, &other.elts) }
    }
}

/* Intersection */

impl<T: Scalar> BitAndSpecImpl for Interval<T> {
    open spec fn obeys_bitand_spec() -> bool {
        true
    }

    open spec fn bitand_req(self, other: Interval<T>) -> bool {
        true
    }

    open spec fn bitand_spec(self, other: Interval<T>) -> Option<Interval<T>> {
        if self@.overlaps(other@) {
            Some(
                Interval {
                    start: if self.start.value() > other.start.value() {
                        self.start
                    } else {
                        other.start
                    },
                    stop: if self.stop.value() < other.stop.value() {
                        self.stop
                    } else {
                        other.stop
                    },
                },
            )
        } else {
            None
        }
    }
}

impl<T: Scalar> BitAnd for Interval<T> {
    type Output = Option<Interval<T>>;

    /// What the intervals share, if they overlap.
    fn bitand(self, other: Interval<T>) -> (r: Option<Interval<T>>)
        ensures
            match r {
                Some(i) => self@.meet(other@) == Some(i@),
                None => self@.meet(other@).is_none(),
            },
    {
        if self.overlap(&other) {
            Some(
                Interval {
                    start: if other.start.less_than(self.start) {
                        self.start
                    } else {
                        other.start
                    },
                    stop: if self.stop.less_than(other.stop) {
                        self.stop
                    } else {
                        other.stop
                    },
                },
            )
        } else {
            None
        }
    }
}

/// An interval that is longer than a point shares itself with itself.
pub proof fn law_intersection_with_itself<T: Scalar>(x: Interval<T>)
    requires
        x@.lo < x@.hi,
    ensures
        vstd::std_specs::ops::BitAndSpec::bitand_spec(x, x) == Some(x),
{
}

/* Difference */

/// Adds to `elts` what is left of `a` when `b` is cut out of it.
fn push_cut<T: Scalar>(elts: &mut Vec<Interval<T>>, a: Interval<T>, b: Interval<T>)
    ensures
        spans_of(final(elts)@) == spans_of(old(elts)@) + a@.cut(b@),
{
    let ghost before = spans_of(elts@);
    if a.overlap(&b) {
        if a.start.less_than(b.start) {
            elts.push(Interval { start: a.start, stop: b.start });
        }
        if b.stop.less_than(a.stop) {
            elts.push(Interval { start: b.stop, stop: a.stop });
        }
    } else {
        elts.push(a);
    }
    assert(spans_of(elts@) =~= before + a@.cut(b@));
}

impl<T: Scalar> SubSpecImpl for Interval<T> {
    open spec fn obeys_sub_spec() -> bool {
        false
    }

    open spec fn sub_req(self, other: Interval<T>) -> bool {
        true
    }

    open spec fn sub_spec(self, other: Interval<T>) -> IntervalCollection<T> {
        choose|c: IntervalCollection<T>| c@ == self@.cut(other@)
    }
}

impl<T: Scalar> Sub for Interval<T> {
    type Output = IntervalCollection<T>;

    /// What is left of the interval when `other` is cut out of it.
    fn sub(self, other: Interval<T>) -> (r: IntervalCollection<T>)
        ensures
            r@ == self@.cut(other@),
    {
        let mut elts: Vec<Interval<T>> = Vec::new();
        assert(spans_of(elts@) =~= Seq::<Span>::empty());
        push_cut(&mut elts, self, other);
        IntervalCollection { elts }
    }
}

impl<T: Scalar> SubSpecImpl<Interval<T>> for IntervalCollection<T> {
    open spec fn obeys_sub_spec() -> bool {
        false
    }

    open spec fn sub_req(self, other: Interval<T>) -> bool {
        true
    }

    open spec fn sub_spec(self, other: Interval<T>) -> IntervalCollection<T> {
        choose|c: IntervalCollection<T>| c@ == subtract(self@, other@)
    }
}

impl<T: Scalar> Sub<Interval<T>> for IntervalCollection<T> {
    type Output = IntervalCollection<T>;

    /// What is left of each interval, in turn, when `other` is cut out of
    /// it. Intervals that did not overlap still do not.
    fn sub(self, other: Interval<T>) -> (r: IntervalCollection<T>)
        ensures
            r@ == subtract(self@, other@),
            well_formed(self@) ==> well_formed(r@),
            non_overlapping(self@) && other@.well_formed() ==> non_overlapping(r@),
    {
        let mut elts: Vec<Interval<T>> = Vec::new();
        let mut i: usize = 0;
        assert(spans_of(elts@) =~= subtract(self@.take(0), other@));
        while i < self.elts.len()
            invariant
                i <= self.elts@.len(),
                spans_of(elts@) == subtract(self@.take(i as int), other@),
            decreases self.elts.len() - i,
        {
            let a = self.elts[i];
            assert(self@.take(i + 1).drop_last() =~= self@.take(i as int));
            assert(self@.take(i + 1).last() == a@);
            push_cut(&mut elts, a, other);
            i += 1;
        }
        proof {
            assert(self@.take(i as int) =~= self@);
            super::laws::lemma_subtract_keeps_order(self@, other@);
            if non_overlapping(self@) && other@.well_formed() {
                super::laws::lemma_subtract_keeps_apart(self@, other@);
            }
        }
        IntervalCollection { elts }
    }
}

impl<T: Scalar> SubSpecImpl for IntervalCollection<T> {
    open spec fn obeys_sub_spec() -> bool {
        false
    }

    open spec fn sub_req(self, other: IntervalCollection<T>) -> bool {
        true
    }

    open spec fn sub_spec(self, other: IntervalCollection<T>) -> IntervalCollection<T> {
        choose|c: IntervalCollection<T>| c@ == subtract_all(self@, other@)
    }
}

impl<T: Scalar> Sub for IntervalCollection<T> {
    type Output = IntervalCollection<T>;

    /// What is left of the collection when the intervals of `other` are cut
    /// out of it, one after the other. Intervals that did not overlap still
    /// do not.
    fn sub(self, other: IntervalCollection<T>) -> (r: IntervalCollection<T>)
        ensures
            r@ == subtract_all(self@, other@),
            well_formed(self@) ==> well_formed(r@),
            non_overlapping(self@) && well_formed(other@) ==> non_overlapping(r@),
    {
        let ghost start = self@;
        let mut res = self;
        let mut i: usize = 0;
        assert(other@.take(0) =~= Seq::<Span>::empty());
        while i < other.elts.len()
            invariant
                i <= other.elts@.len(),
                res@ == subtract_all(start, other@.take(i as int)),
                well_formed(start) ==> well_formed(res@),
                non_overlapping(start) && well_formed(other@) ==> non_overlapping(res@),
            decreases other.elts.len() - i,
        {
            let b = other.elts[i];
            assert(other@.take(i + 1).drop_last() =~= other@.take(i as int));
            assert(other@.take(i + 1).last() == b@);
            assert(other@[i as int] == b@);
            res = res - b;
            i += 1;
        }
        assert(other@.take(i as int) =~= other@);
        res
    }
}

/* Intersection with a collection */

/// Adds to `elts` what `a` shares with each interval of `c` that it
/// overlaps, in the order of `c`.
fn push_meets<T: Scalar>(elts: &mut Vec<Interval<T>>, a: Interval<T>, c: &Vec<Interval<T>>)
    ensures
        spans_of(final(elts)@) == spans_of(old(elts)@) + meet_each(a@, spans_of(c@)),
{
    let ghost before = spans_of(elts@);
    let ghost spans = spans_of(c@);
    let mut i: usize = 0;
    assert(spans_of(elts@) =~= before + meet_each(a@, spans.take(0)));
    while i < c.len()
        invariant
            i <= c@.len(),
            spans == spans_of(c@),
            spans_of(elts@) == before + meet_each(a@, spans.take(i as int)),
        decreases c.len() - i,
    {
        let ghost so_far = spans_of(elts@);
        assert(spans.take(i + 1).drop_last() =~= spans.take(i as int));
        assert(spans.take(i + 1).last() == c@[i as int]@);
        match a & c[i] {
            Some(m) => {
                elts.push(m);
                assert(spans_of(elts@) =~= so_far.push(m@));
                assert(so_far.push(m@) =~= before + meet_each(a@, spans.take(i + 1)));
            },
            None => {
                assert(so_far =~= before + meet_each(a@, spans.take(i + 1)));
            },
        }
        i += 1;
    }
    assert(spans.take(i as int) =~= spans);
}

impl<T: Scalar> BitAndSpecImpl<IntervalCollection<T>> for Interval<T> {
    open spec fn obeys_bitand_spec() -> bool {
        false
    }

    open spec fn bitand_req(self, other: IntervalCollection<T>) -> bool {
        true
    }

    open spec fn bitand_spec(self, other: IntervalCollection<T>) -> IntervalCollection<T> {
        choose|c: IntervalCollection<T>| c@ == meet_each(self@, other@)
    }
}

impl<T: Scalar> BitAnd<IntervalCollection<T>> for Interval<T> {
    type Output = IntervalCollection<T>;

    /// What the interval shares with each interval of `other` that it
    /// overlaps, in the order of `other`. If the intervals of `other` do
    /// not overlap, neither do these.
    fn bitand(self, other: IntervalCollection<T>) -> (r: IntervalCollection<T>)
        ensures
            r@ == meet_each(self@, other@),
            non_overlapping(other@) ==> non_overlapping(r@),
    {
        let mut elts: Vec<Interval<T>> = Vec::new();
        assert(spans_of(elts@) =~= Seq::<Span>::empty());
        push_meets(&mut elts, self, &other.elts);
        proof {
            assert(spans_of(elts@) =~= meet_each(self@, other@));
            if non_overlapping(other@) {
                super::laws::lemma_meet_each_keeps_apart(self@, other@);
            }
        }
        IntervalCollection { elts }
    }
}

impl<T: Scalar> BitAndSpecImpl<Interval<T>> for IntervalCollection<T> {
    open spec fn obeys_bitand_spec() -> bool {
        false
    }

    open spec fn bitand_req(self, other: Interval<T>) -> bool {
        true
    }

    open spec fn bitand_spec(self, other: Interval<T>) -> IntervalCollection<T> {
        choose|c: IntervalCollection<T>| c@ == meet_each(other@, self@)
    }
}

impl<T: Scalar> BitAnd<Interval<T>> for IntervalCollection<T> {
    type Output = IntervalCollection<T>;

    /// What `other` shares with each interval of the collection that it
    /// overlaps, in the order of the collection. If the intervals of the
    /// collection do not overlap, neither do these.
    fn bitand(self, other: Interval<T>) -> (r: IntervalCollection<T>)
        ensures
            r@ == meet_each(other@, self@),
            non_overlapping(self@) ==> non_overlapping(r@),
    {
        other & self
    }
}

impl<T: Scalar> BitAndSpecImpl for IntervalCollection<T> {
    open spec fn obeys_bitand_spec() -> bool {
        false
    }

    open spec fn bitand_req(self, other: IntervalCollection<T>) -> bool {
        true
    }

    open spec fn bitand_spec(self, other: IntervalCollection<T>) -> IntervalCollection<T> {
        choose|c: IntervalCollection<T>| c@ == meet_all(self@, other@)
    }
}

impl<T: Scalar> BitAnd for IntervalCollection<T> {
    type Output = IntervalCollection<T>;

    /// What the intervals of the collection share with those of `other`:
    /// for each interval of `other` in turn, what it shares with each
    /// interval of the collection. If neither collection has intervals that
    /// overlap, neither has the result.
    fn bitand(self, other: IntervalCollection<T>) -> (r: IntervalCollection<T>)
        ensures
            r@ == meet_all(self@, other@),
            non_overlapping(self@) && non_overlapping(other@) ==> non_overlapping(r@),
    {
        let mut elts: Vec<Interval<T>> = Vec::new();
        let mut i: usize = 0;
        assert(spans_of(elts@) =~= meet_all(self@, other@.take(0)));
        while i < other.elts.len()
            invariant
                i <= other.elts@.len(),
                spans_of(elts@) == meet_all(self@, other@.take(i as int)),
            decreases other.elts.len() - i,
        {
            let b = other.elts[i];
            assert(other@.take(i + 1).drop_last() =~= other@.take(i as int));
            assert(other@.take(i + 1).last() == b@);
            push_meets(&mut elts, b, &self.elts);
            i += 1;
        }
        proof {
            assert(other@.take(i as int) =~= other@);
            if non_overlapping(self@) && non_overlapping(other@) {
                super::laws::lemma_meet_all_keeps_apart(self@, other@);
            }
        }
        IntervalCollection { elts }
    }
}

} // verus!
