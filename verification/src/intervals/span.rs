//! Closed intervals of integers: the mathematical model of the library.

use vstd::prelude::*;

verus! {

/// The closed interval of integers from `lo` to `hi`.
pub struct Span {
    pub lo: int,
    pub hi: int,
}

impl Span {
    /// The ends are in order.
    pub open spec fn well_formed(self) -> bool {
        self.lo <= self.hi
    }

    /// The distance between the ends.
    pub open spec fn length(self) -> int {
        self.hi - self.lo
    }

    /// The point `x` lies in the interval.
    pub open spec fn contains(self, x: int) -> bool {
        self.lo <= x <= self.hi
    }

    /// The stretch from `x` to `x + 1` lies in the interval.
    pub open spec fn spans(self, x: int) -> bool {
        self.lo <= x < self.hi
    }

    /// The interval lies in `other`.
    pub open spec fn within(self, other: Span) -> bool {
        other.lo <= self.lo && self.hi <= other.hi
    }

    /// The intervals share more than an end.
    pub open spec fn overlaps(self, other: Span) -> bool {
        self.lo < other.hi && self.hi > other.lo
    }

    /// What the intervals share, if they overlap.
    pub open spec fn meet(self, other: Span) -> Option<Span> {
        if self.overlaps(other) {
            Some(
                Span {
                    lo: if self.lo > other.lo {
                        self.lo
                    } else {
                        other.lo
                    },
                    hi: if self.hi < other.hi {
                        self.hi
                    } else {
                        other.hi
                    },
                },
            )
        } else {
            None
        }
    }

    /// What is left of the interval when `other` is cut out of it: the
    /// interval itself if they do not overlap, else the piece before `other`
    /// and the piece after it, as far as there are any.
    pub open spec fn cut(self, other: Span) -> Seq<Span> {
        if self.overlaps(other) {
            let before = if other.lo > self.lo {
                seq![Span { lo: self.lo, hi: other.lo }]
            } else {
                Seq::empty()
            };
            let after = if other.hi < self.hi {
                seq![Span { lo: other.hi, hi: self.hi }]
            } else {
                Seq::empty()
            };
            before + after
        } else {
            seq![self]
        }
    }
}

/// Every interval has its ends in order.
pub open spec fn well_formed(c: Seq<Span>) -> bool {
    forall|i: int| 0 <= i < c.len() ==> (#[trigger] c[i]).well_formed()
}

/// No two intervals overlap; they may touch.
pub open spec fn non_overlapping(c: Seq<Span>) -> bool {
    forall|i: int, j: int|
        0 <= i < c.len() && 0 <= j < c.len() && i != j ==> !(#[trigger] c[i]).overlaps(
            #[trigger] c[j],
        )
}

/// The intervals are in normal form: each has its ends in order, and each
/// ends before the next one starts.
pub open spec fn normal(c: Seq<Span>) -> bool {
    &&& well_formed(c)
    &&& forall|i: int, j: int| 0 <= i < j < c.len() ==> (#[trigger] c[i]).hi < (#[trigger] c[j]).lo
}

/// The point `x` lies in one of the intervals.
pub open spec fn covers_point(c: Seq<Span>, x: int) -> bool {
    exists|i: int| 0 <= i < c.len() && (#[trigger] c[i]).contains(x)
}

/// The stretch from `x` to `x + 1` lies in one of the intervals.
pub open spec fn covers_stretch(c: Seq<Span>, x: int) -> bool {
    exists|i: int| 0 <= i < c.len() && (#[trigger] c[i]).spans(x)
}

/// `r` is the union of the intervals of `c`: it is in normal form, and it
/// covers the points and the stretches that `c` covers, and no others.
pub open spec fn is_union(r: Seq<Span>, c: Seq<Span>) -> bool {
    &&& normal(r)
    &&& forall|x: int| covers_point(r, x) <==> covers_point(c, x)
    &&& forall|x: int| covers_stretch(r, x) <==> covers_stretch(c, x)
}

/// The sum of the lengths of the intervals.
pub open spec fn total_length(c: Seq<Span>) -> int
    decreases c.len(),
{
    if c.len() == 0 {
        0
    } else {
        total_length(c.drop_last()) + c.last().length()
    }
}

/// What is left of the intervals of `c`, one after the other, when `b` is
/// cut out of each.
pub open spec fn subtract(c: Seq<Span>, b: Span) -> Seq<Span>
    decreases c.len(),
{
    if c.len() == 0 {
        Seq::empty()
    } else {
        subtract(c.drop_last(), b) + c.last().cut(b)
    }
}

/// What is left of `c` when the intervals of `bs` are cut out of it, one
/// after the other.
pub open spec fn subtract_all(c: Seq<Span>, bs: Seq<Span>) -> Seq<Span>
    decreases bs.len(),
{
    if bs.len() == 0 {
        c
    } else {
        subtract(subtract_all(c, bs.drop_last()), bs.last())
    }
}

/// What `a` shares with each interval of `c` that it overlaps, in the order
/// of `c`.
pub open spec fn meet_each(a: Span, c: Seq<Span>) -> Seq<Span>
    decreases c.len(),
{
    if c.len() == 0 {
        Seq::empty()
    } else {
        meet_each(a, c.drop_last()) + match a.meet(c.last()) {
            Some(m) => seq![m],
            None => Seq::empty(),
        }
    }
}

/// What the intervals of `a` share with those of `b`: for each interval of
/// `b` in turn, what it shares with each interval of `a`.
pub open spec fn meet_all(a: Seq<Span>, b: Seq<Span>) -> Seq<Span>
    decreases b.len(),
{
    if b.len() == 0 {
        Seq::empty()
    } else {
        meet_all(a, b.drop_last()) + meet_each(b.last(), a)
    }
}

} // verus!
