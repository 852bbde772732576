//! The scalars that intervals are made of, and the differences between
//! them.

use super::render::{decimal_string, decimal_text};
use vstd::prelude::*;

verus! {

/// The difference between two scalars: a copyable machine value, seen as
/// the mathematical integer it amounts to.
pub trait Difference: Copy {
    /// The integer that the difference amounts to.
    spec fn amount(self) -> int;

    /// Whether some difference amounts to the integer `v`.
    spec fn in_range(v: int) -> bool;

    /// Every difference amounts to an integer in range.
    proof fn lemma_amount_in_range(d: Self)
        ensures
            Self::in_range(d.amount()),
    ;

    /// The range has no holes.
    proof fn lemma_range_is_convex(low: int, mid: int, high: int)
        requires
            Self::in_range(low),
            Self::in_range(high),
            low <= mid <= high,
        ensures
            Self::in_range(mid),
    ;

    /// The difference that amounts to nothing.
    fn zero() -> (r: Self)
        ensures
            r.amount() == 0,
    ;

    /// `self + other`, where that is in range.
    fn plus(self, other: Self) -> (r: Self)
        requires
            Self::in_range(self.amount() + other.amount()),
        ensures
            r.amount() == self.amount() + other.amount(),
    ;
}

/// A scalar: a copyable machine value, seen as the mathematical integer it
/// holds. Scalars are ordered as their integers are, and the difference
/// between two of them is of a type of its own, `Delta`.
pub trait Scalar: Copy {
    /// The type of the difference between two scalars.
    type Delta: Difference;

    /// The integer that the scalar holds.
    spec fn value(self) -> int;

    /// Whether some scalar holds the integer `v`.
    spec fn in_range(v: int) -> bool;

    /// Scalars that hold the same integer are the same.
    proof fn lemma_value_is_injective(a: Self, b: Self)
        requires
            a.value() == b.value(),
        ensures
            a == b,
    ;

    /// Whether `self` is below `other`.
    fn less_than(self, other: Self) -> (r: bool)
        ensures
            r == (self.value() < other.value()),
    ;

    /// `self + delta`, where that is in range.
    fn plus(self, delta: Self::Delta) -> (r: Self)
        requires
            Self::in_range(self.value() + delta.amount()),
        ensures
            r.value() == self.value() + delta.amount(),
    ;

    /// `self - other`, where that is in the range of differences.
    fn minus(self, other: Self) -> (r: Self::Delta)
        requires
            <Self::Delta as Difference>::in_range(self.value() - other.value()),
        ensures
            r.amount() == self.value() - other.value(),
    ;

    /// The scalar in decimal.
    fn to_decimal(self) -> (r: String)
        ensures
            r@ == decimal_text(self.value()),
    ;
}

impl Difference for i32 {
    open spec fn amount(self) -> int {
        self as int
    }

    open spec fn in_range(v: int) -> bool {
        i32::MIN <= v <= i32::MAX
    }

    proof fn lemma_amount_in_range(d: Self) {
    }

    proof fn lemma_range_is_convex(low: int, mid: int, high: int) {
    }

    fn zero() -> (r: Self) {
        0
    }

    fn plus(self, other: Self) -> (r: Self) {
        self + other
    }
}

impl Scalar for i32 {
    type Delta = i32;

    open spec fn value(self) -> int {
        self as int
    }

    open spec fn in_range(v: int) -> bool {
        i32::MIN <= v <= i32::MAX
    }

    proof fn lemma_value_is_injective(a: Self, b: Self) {
    }

    fn less_than(self, other: Self) -> (r: bool) {
        self < other
    }

    fn plus(self, delta: i32) -> (r: Self) {
        self + delta
    }

    fn minus(self, other: Self) -> (r: i32) {
        self - other
    }

    fn to_decimal(self) -> (r: String) {
        if self < 0 {
            decimal_string(true, (-(self as i64)) as u64)
        } else {
            decimal_string(false, self as u64)
        }
    }
}

impl Difference for i64 {
    open spec fn amount(self) -> int {
        self as int
    }

    open spec fn in_range(v: int) -> bool {
        i64::MIN <= v <= i64::MAX
    }

    proof fn lemma_amount_in_range(d: Self) {
    }

    proof fn lemma_range_is_convex(low: int, mid: int, high: int) {
    }

    fn zero() -> (r: Self) {
        0
    }

    fn plus(self, other: Self) -> (r: Self) {
        self + other
    }
}

impl Scalar for i64 {
    type Delta = i64;

    open spec fn value(self) -> int {
        self as int
    }

    open spec fn in_range(v: int) -> bool {
        i64::MIN <= v <= i64::MAX
    }

    proof fn lemma_value_is_injective(a: Self, b: Self) {
    }

    fn less_than(self, other: Self) -> (r: bool) {
        self < other
    }

    fn plus(self, delta: i64) -> (r: Self) {
        self + delta
    }

    fn minus(self, other: Self) -> (r: i64) {
        self - other
    }

    fn to_decimal(self) -> (r: String) {
        if self < 0 {
            decimal_string(true, (-(self + 1)) as u64 + 1)
        } else {
            decimal_string(false, self as u64)
        }
    }
}

} // verus!
