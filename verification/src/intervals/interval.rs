//! One interval.

use super::scalar::{Difference, Scalar};
use super::span::Span;
use vstd::prelude::*;

verus! {

/// The closed interval from `start` to `stop`. The ends are expected to be
/// in order, `start <= stop`.
#[derive(Debug, PartialEq, Eq, PartialOrd, Ord, Clone, Copy)]
pub struct Interval<T> {
    pub start: T,
    pub stop: T,
}

impl<T: Scalar> View for Interval<T> {
    type V = Span;

    open spec fn view(&self) -> Span {
        Span { lo: self.start.value(), hi: self.stop.value() }
    }
}

impl<T: Scalar> Interval<T> {
    /// An interval is known by its view: intervals over the same integers
    /// are the same.
    pub proof fn law_view_is_injective(a: Self, b: Self)
        requires
            a@ == b@,
        ensures
            a == b,
    {
        T::lemma_value_is_injective(a.start, b.start);
        T::lemma_value_is_injective(a.stop, b.stop);
    }

    /// The distance from `start` to `stop`.
    pub fn duration(self) -> (r: T::Delta)
        requires
            <T::Delta as Difference>::in_range(self@.length()),
        ensures
            r.amount() == self@.length(),
    {
        self.stop.minus(self.start)
    }

    /// The interval moved by `delta`.
    pub fn shift(&self, delta: T::Delta) -> (r: Interval<T>)
        requires
            T::in_range(self@.lo + delta.amount()),
            T::in_range(self@.hi + delta.amount()),
        ensures
            r@ == (Span { lo: self@.lo + delta.amount(), hi: self@.hi + delta.amount() }),
    {
        Interval { start: self.start.plus(delta), stop: self.stop.plus(delta) }
    }

    /// Whether the intervals share more than an end.
    pub fn overlap(&self, other: &Interval<T>) -> (r: bool)
        ensures
            r == self@.overlaps(other@),
    {
        self.start.less_than(other.stop) && other.start.less_than(self.stop)
    }
}

} // verus!
