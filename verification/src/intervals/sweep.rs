//! The union of intervals, by a sweep over all of them.
//!
//! The sweep starts at the lowest interval and keeps a horizon, the end of
//! the run found so far. The horizon moves to the farthest end of the
//! intervals that start at or before it and end behind it, until there is
//! none; then the run is complete. The sweep goes on from the lowest
//! interval that starts behind the horizon.

use super::collection::spans_of;
use super::interval::Interval;
use super::scalar::Scalar;
use super::span::{covers_point, covers_stretch, is_union, normal, well_formed, Span};
use vstd::prelude::*;

verus! {

/// The interval lies in one of the intervals of `r`.
pub open spec fn inside(s: Span, r: Seq<Span>) -> bool {
    exists|k: int| 0 <= k < r.len() && s.within(#[trigger] r[k])
}

/// The intervals of `a`, then those of `b`.
fn gather<T: Scalar>(a: &Vec<Interval<T>>, b: &Vec<Interval<T>>) -> (all: Vec<Interval<T>>)
    ensures
        all@ == a@ + b@,
{
    let mut all: Vec<Interval<T>> = Vec::new();
    let mut i: usize = 0;
    while i < a.len()
        invariant
            i <= a@.len(),
            all@ == a@.take(i as int),
        decreases a.len() - i,
    {
        all.push(a[i]);
        assert(all@ =~= a@.take(i + 1));
        i += 1;
    }
    assert(a@.take(i as int) =~= a@);
    let mut j: usize = 0;
    while j < b.len()
        invariant
            j <= b@.len(),
            all@ == a@ + b@.take(j as int),
        decreases b.len() - j,
    {
        all.push(b[j]);
        assert(all@ =~= a@ + b@.take(j + 1));
        j += 1;
    }
    assert(b@.take(j as int) =~= b@);
    all
}

/// Whether `a` comes before `b` in the order of starts, and of stops where
/// the starts are the same.
fn comes_before<T: Scalar>(a: &Interval<T>, b: &Interval<T>) -> (r: bool)
    ensures
        r == (a@.lo < b@.lo || (a@.lo == b@.lo && a@.hi < b@.hi)),
{
    a.start.less_than(b.start) || (!b.start.less_than(a.start) && a.stop.less_than(b.stop))
}

/// The farthest stop of all the intervals.
fn farthest_stop<T: Scalar>(all: &Vec<Interval<T>>) -> (top: T)
    requires
        all@.len() > 0,
    ensures
        forall|i: int| 0 <= i < all@.len() ==> (#[trigger] all@[i])@.hi <= top.value(),
{
    let mut top = all[0].stop;
    let mut i: usize = 1;
    while i < all.len()
        invariant
            1 <= i <= all@.len(),
            forall|j: int| 0 <= j < i ==> (#[trigger] all@[j])@.hi <= top.value(),
        decreases all.len() - i,
    {
        if top.less_than(all[i].stop) {
            top = all[i].stop;
        }
        i += 1;
    }
    top
}

/// Where the lowest interval stands: the first in the order of starts, and
/// of stops where the starts are the same.
fn lowest<T: Scalar>(all: &Vec<Interval<T>>) -> (seed: usize)
    requires
        all@.len() > 0,
    ensures
        seed < all@.len(),
        forall|i: int| 0 <= i < all@.len() ==> all@[seed as int]@.lo <= (#[trigger] all@[i])@.lo,
{
    let mut seed: usize = 0;
    let mut i: usize = 1;
    while i < all.len()
        invariant
            1 <= i <= all@.len(),
            seed < i,
            forall|j: int| 0 <= j < i ==> all@[seed as int]@.lo <= (#[trigger] all@[j])@.lo,
        decreases all.len() - i,
    {
        if comes_before(&all[i], &all[seed]) {
            seed = i;
        }
        i += 1;
    }
    seed
}

/// Where the lowest interval that starts behind `horizon` stands, if there
/// is one.
fn lowest_behind<T: Scalar>(all: &Vec<Interval<T>>, horizon: T) -> (r: Option<usize>)
    ensures
        match r {
            Some(seed) => {
                &&& seed < all@.len()
                &&& all@[seed as int]@.lo > horizon.value()
                &&& forall|i: int|
                    0 <= i < all@.len() && (#[trigger] all@[i])@.lo > horizon.value()
                        ==> all@[seed as int]@.lo <= all@[i]@.lo
            },
            None => forall|i: int|
                0 <= i < all@.len() ==> (#[trigger] all@[i])@.lo <= horizon.value(),
        },
{
    let mut best: Option<usize> = None;
    let mut i: usize = 0;
    while i < all.len()
        invariant
            i <= all@.len(),
            match best {
                Some(seed) => {
                    &&& seed < i
                    &&& all@[seed as int]@.lo > horizon.value()
                    &&& forall|j: int|
                        0 <= j < i && (#[trigger] all@[j])@.lo > horizon.value()
                            ==> all@[seed as int]@.lo <= all@[j]@.lo
                },
                None => forall|j: int| 0 <= j < i ==> (#[trigger] all@[j])@.lo <= horizon.value(),
            },
        decreases all.len() - i,
    {
        if horizon.less_than(all[i].start) {
            match best {
                Some(seed) => {
                    if comes_before(&all[i], &all[seed]) {
                        best = Some(i);
                    }
                },
                None => {
                    best = Some(i);
                },
            }
        }
        i += 1;
    }
    best
}

/// The farthest stop of the intervals that start at or before `horizon` and
/// end behind it, if there are any.
fn farthest_reach<T: Scalar>(all: &Vec<Interval<T>>, horizon: T) -> (r: Option<T>)
    ensures
        match r {
            Some(stop) => {
                &&& stop.value() > horizon.value()
                &&& exists|i: int|
                    0 <= i < all@.len() && (#[trigger] all@[i])@.spans(horizon.value())
                        && all@[i]@.hi == stop.value()
                &&& forall|i: int|
                    0 <= i < all@.len() && (#[trigger] all@[i])@.spans(horizon.value())
                        ==> all@[i]@.hi <= stop.value()
            },
            None => forall|i: int|
                0 <= i < all@.len() ==> !(#[trigger] all@[i])@.spans(horizon.value()),
        },
{
    let mut best: Option<T> = None;
    let mut i: usize = 0;
    while i < all.len()
        invariant
            i <= all@.len(),
            match best {
                Some(stop) => {
                    &&& stop.value() > horizon.value()
                    &&& exists|j: int|
                        0 <= j < i && (#[trigger] all@[j])@.spans(horizon.value()) && all@[j]@.hi
                            == stop.value()
                    &&& forall|j: int|
                        0 <= j < i && (#[trigger] all@[j])@.spans(horizon.value()) ==> all@[j]@.hi
                            <= stop.value()
                },
                None => forall|j: int|
                    0 <= j < i ==> !(#[trigger] all@[j])@.spans(horizon.value()),
            },
        decreases all.len() - i,
    {
        let e = all[i];
        if !horizon.less_than(e.start) && horizon.less_than(e.stop) {
            match best {
                Some(stop) => {
                    if stop.less_than(e.stop) {
                        best = Some(e.stop);
                    }
                },
                None => {
                    best = Some(e.stop);
                },
            }
            assert(all@[i as int]@.spans(horizon.value()));
        }
        i += 1;
    }
    best
}

/// The union of the intervals of `a` and `b`, each of which has its ends in
/// order: the runs that they cover, in rising order, each ending before the
/// next one starts. Intervals that overlap or touch are in one run.
pub fn union<T: Scalar>(a: &Vec<Interval<T>>, b: &Vec<Interval<T>>) -> (out: Vec<Interval<T>>)
    requires
        well_formed(spans_of(a@)),
        well_formed(spans_of(b@)),
    ensures
        is_union(spans_of(out@), spans_of(a@) + spans_of(b@)),
{
    let all = gather(a, b);
    let ghost c = spans_of(all@);
    let mut out: Vec<Interval<T>> = Vec::new();
    proof {
        assert(c =~= spans_of(a@) + spans_of(b@));
        assert(spans_of(out@) =~= Seq::<Span>::empty());
    }
    if all.len() == 0 {
        return out;
    }
    let top = farthest_stop(&all);
    let mut seed = lowest(&all);
    loop
        invariant
            c == spans_of(all@),
            c == spans_of(a@) + spans_of(b@),
            well_formed(c),
            seed < all@.len(),
            forall|i: int| 0 <= i < c.len() ==> (#[trigger] c[i]).hi <= top.value(),
            normal(spans_of(out@)),
            out@.len() > 0 ==> spans_of(out@).last().hi < c[seed as int].lo,
            forall|i: int|
                0 <= i < c.len() && (#[trigger] c[i]).lo < c[seed as int].lo ==> inside(
                    c[i],
                    spans_of(out@),
                ),
            forall|x: int| covers_point(spans_of(out@), x) ==> covers_point(c, x),
            forall|x: int| covers_stretch(spans_of(out@), x) ==> covers_stretch(c, x),
        decreases top.value() - c[seed as int].lo,
    {
        let ghost r = spans_of(out@);
        let swipe = all[seed].start;
        let mut horizon = all[seed].stop;
        let mut reach = farthest_reach(&all, horizon);
        proof {
            assert(c[seed as int] == all@[seed as int]@);
            assert(c[seed as int].well_formed());
            assert(c[seed as int].contains(horizon.value()));
            assert forall|x: int| swipe.value() <= x < horizon.value() implies covers_stretch(
                c,
                x,
            ) by {
                assert(c[seed as int].spans(x));
            }
        }
        while reach.is_some()
            invariant
                c == spans_of(all@),
                swipe.value() <= horizon.value(),
                covers_point(c, horizon.value()),
                forall|x: int| swipe.value() <= x < horizon.value() ==> covers_stretch(c, x),
                forall|i: int| 0 <= i < c.len() ==> (#[trigger] c[i]).hi <= top.value(),
                horizon.value() <= top.value(),
                match reach {
                    Some(stop) => {
                        &&& stop.value() > horizon.value()
                        &&& exists|i: int|
                            0 <= i < all@.len() && (#[trigger] all@[i])@.spans(horizon.value())
                                && all@[i]@.hi == stop.value()
                    },
                    None => forall|i: int|
                        0 <= i < all@.len() ==> !(#[trigger] all@[i])@.spans(horizon.value()),
                },
            decreases top.value() - horizon.value(),
        {
            let stop = reach.unwrap();
            proof {
                let i = choose|i: int|
                    0 <= i < all@.len() && (#[trigger] all@[i])@.spans(horizon.value())
                        && all@[i]@.hi == stop.value();
                assert(c[i] == all@[i]@);
                assert(c[i].contains(stop.value()));
                assert forall|x: int| swipe.value() <= x < stop.value() implies covers_stretch(
                    c,
                    x,
                ) by {
                    if x >= horizon.value() {
                        assert(c[i].spans(x));
                    }
                }
            }
            horizon = stop;
            reach = farthest_reach(&all, horizon);
        }
        let run = Interval { start: swipe, stop: horizon };
        out.push(run);
        let ghost r2 = spans_of(out@);
        proof {
            assert(r2 =~= r.push(run@));
            assert forall|i: int| 0 <= i < r2.len() implies (#[trigger] r2[i]).well_formed() by {
                if i < r.len() {
                    assert(r2[i] == r[i]);
                }
            }
            assert forall|i: int, j: int| 0 <= i < j < r2.len() implies (#[trigger] r2[i]).hi < (
            #[trigger] r2[j]).lo by {
                assert(r2[i] == r[i]);
                if j < r.len() {
                    assert(r2[j] == r[j]);
                } else {
                    assert(r[r.len() - 1].well_formed());
                    if i < r.len() - 1 {
                        assert(r[i].hi < r[r.len() - 1].lo);
                    }
                }
            }
            assert forall|x: int| covers_point(r2, x) implies covers_point(c, x) by {
                let k = choose|k: int| 0 <= k < r2.len() && (#[trigger] r2[k]).contains(x);
                if k < r.len() {
                    assert(r[k].contains(x));
                } else if x < horizon.value() {
                    assert(covers_stretch(c, x));
                    let i = choose|i: int| 0 <= i < c.len() && (#[trigger] c[i]).spans(x);
                    assert(c[i].contains(x));
                }
            }
            assert forall|x: int| covers_stretch(r2, x) implies covers_stretch(c, x) by {
                let k = choose|k: int| 0 <= k < r2.len() && (#[trigger] r2[k]).spans(x);
                if k < r.len() {
                    assert(r[k].spans(x));
                }
            }
            // Every interval that starts at or before the horizon lies in a run.
            assert forall|i: int|
                0 <= i < c.len() && (#[trigger] c[i]).lo <= horizon.value() implies inside(
                c[i],
                r2,
            ) by {
                if c[i].lo < swipe.value() {
                    let k = choose|k: int| 0 <= k < r.len() && c[i].within(#[trigger] r[k]);
                    assert(r2[k] == r[k]);
                } else {
                    assert(c[i] == all@[i]@);
                    assert(!all@[i]@.spans(horizon.value()));
                    assert(c[i].within(r2[r2.len() - 1]));
                }
            }
        }
        match lowest_behind(&all, horizon) {
            Some(next) => {
                proof {
                    assert(c[next as int] == all@[next as int]@);
                    assert(c[next as int].well_formed());
                    assert forall|i: int|
                        0 <= i < c.len() && (#[trigger] c[i]).lo < c[next as int].lo implies inside(
                        c[i],
                        r2,
                    ) by {
                        assert(c[i] == all@[i]@);
                    }
                }
                seed = next;
            },
            None => {
                proof {
                    assert forall|i: int| 0 <= i < c.len() implies inside(#[trigger] c[i], r2) by {
                        assert(c[i] == all@[i]@);
                    }
                    assert forall|x: int| covers_point(c, x) implies covers_point(r2, x) by {
                        let i = choose|i: int| 0 <= i < c.len() && (#[trigger] c[i]).contains(x);
                        assert(inside(c[i], r2));
                        let k = choose|k: int| 0 <= k < r2.len() && c[i].within(#[trigger] r2[k]);
                        assert(r2[k].contains(x));
                    }
                    assert forall|x: int| covers_stretch(c, x) implies covers_stretch(r2, x) by {
                        let i = choose|i: int| 0 <= i < c.len() && (#[trigger] c[i]).spans(x);
                        assert(inside(c[i], r2));
                        let k = choose|k: int| 0 <= k < r2.len() && c[i].within(#[trigger] r2[k]);
                        assert(r2[k].spans(x));
                    }
                }
                return out;
            },
        }
    }
}

} // verus!
