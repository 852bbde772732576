//! Closed intervals over an integer scalar, and collections of them, with
//! union, difference and intersection.
//!
//! A scalar is any type that implements [`Scalar`]: it is ordered, and the
//! difference between two scalars is of the scalar's `Delta` type, which
//! durations are measured in and intervals are shifted by.
//!
//! An interval `[start, stop]` holds both of its ends. Two intervals overlap
//! only if they share more than an end: intervals that merely touch do not.
//! A union is returned in normal form, as the sorted, separate runs that the
//! operands cover; differences and intersections keep their pieces apart,
//! and pieces may touch.

pub mod collection;
pub mod interval;
pub mod laws;
pub mod render;
pub mod scalar;
pub mod span;
pub mod sweep;

pub use collection::IntervalCollection;
pub use interval::Interval;
pub use scalar::{Difference, Scalar};
pub use span::Span;
