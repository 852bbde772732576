//! What holds of the interval operators, proved over intervals of integers.

use super::span::{
    covers_point, covers_stretch, is_union, meet_all, meet_each, non_overlapping, normal,
    subtract, total_length, well_formed, Span,
};
use vstd::prelude::*;

verus! {

/// Each interval of the sequence lies in one of `c`.
pub open spec fn each_within(pieces: Seq<Span>, c: Seq<Span>) -> bool {
    forall|k: int|
        0 <= k < pieces.len() ==> exists|i: int|
            0 <= i < c.len() && (#[trigger] pieces[k]).within(#[trigger] c[i])
}

/// Intervals that lie in intervals that do not overlap do not overlap.
pub proof fn lemma_within_apart(p: Span, q: Span, a: Span, b: Span)
    requires
        p.within(a),
        q.within(b),
        !a.overlaps(b),
    ensures
        !p.overlaps(q),
{
}

/// What a cut leaves lies in what was cut, does not overlap, and has its
/// ends in order if what was cut had.
pub proof fn lemma_cut(a: Span, b: Span)
    ensures
        forall|k: int| 0 <= k < a.cut(b).len() ==> (#[trigger] a.cut(b)[k]).within(a),
        a.well_formed() ==> well_formed(a.cut(b)),
        b.well_formed() ==> non_overlapping(a.cut(b)),
{
}

/// A difference keeps the ends of its intervals in order.
pub proof fn lemma_subtract_keeps_order(c: Seq<Span>, b: Span)
    ensures
        well_formed(c) ==> well_formed(subtract(c, b)),
    decreases c.len(),
{
    if c.len() > 0 && well_formed(c) {
        let front = c.drop_last();
        assert forall|i: int| 0 <= i < front.len() implies (#[trigger] front[i]).well_formed() by {
            assert(front[i] == c[i]);
        }
        lemma_subtract_keeps_order(front, b);
        lemma_cut(c.last(), b);
        let old_pieces = subtract(front, b);
        assert forall|k: int| 0 <= k < subtract(c, b).len() implies (#[trigger] subtract(
            c,
            b,
        )[k]).well_formed() by {
            if k < old_pieces.len() {
                assert(subtract(c, b)[k] == old_pieces[k]);
            } else {
                assert(subtract(c, b)[k] == c.last().cut(b)[k - old_pieces.len()]);
            }
        }
    }
}

/// The pieces of a difference lie in the intervals that were cut, and do
/// not overlap if those did not.
pub proof fn lemma_subtract_keeps_apart(c: Seq<Span>, b: Span)
    requires
        non_overlapping(c),
        b.well_formed(),
    ensures
        non_overlapping(subtract(c, b)),
        each_within(subtract(c, b), c),
    decreases c.len(),
{
    if c.len() > 0 {
        let front = c.drop_last();
        let last = c.last();
        assert forall|i: int, j: int|
            0 <= i < front.len() && 0 <= j < front.len() && i != j implies !(#[trigger] front[i]).overlaps(
            #[trigger] front[j],
        ) by {
            assert(front[i] == c[i] && front[j] == c[j]);
        }
        lemma_subtract_keeps_apart(front, b);
        lemma_cut(last, b);
        let old_pieces = subtract(front, b);
        let new_pieces = last.cut(b);
        let all = subtract(c, b);
        assert(all == old_pieces + new_pieces);
        assert forall|k: int| 0 <= k < all.len() implies exists|i: int|
            0 <= i < c.len() && (#[trigger] all[k]).within(#[trigger] c[i]) by {
            if k < old_pieces.len() {
                assert(all[k] == old_pieces[k]);
                let i = choose|i: int|
                    0 <= i < front.len() && old_pieces[k].within(#[trigger] front[i]);
                assert(front[i] == c[i]);
            } else {
                assert(all[k] == new_pieces[k - old_pieces.len()]);
                assert(all[k].within(c[c.len() - 1]));
            }
        }
        assert forall|k: int, l: int|
            0 <= k < all.len() && 0 <= l < all.len() && k != l implies !(#[trigger] all[k]).overlaps(
            #[trigger] all[l],
        ) by {
            let n = old_pieces.len() as int;
            if k < n && l < n {
                assert(all[k] == old_pieces[k] && all[l] == old_pieces[l]);
            } else if k >= n && l >= n {
                assert(all[k] == new_pieces[k - n] && all[l] == new_pieces[l - n]);
            } else if k < n {
                assert(all[k] == old_pieces[k] && all[l] == new_pieces[l - n]);
                let i = choose|i: int|
                    0 <= i < front.len() && old_pieces[k].within(#[trigger] front[i]);
                assert(front[i] == c[i]);
                assert(!c[i].overlaps(c[c.len() - 1]));
                lemma_within_apart(all[k], all[l], c[i], last);
            } else {
                assert(all[l] == old_pieces[l] && all[k] == new_pieces[k - n]);
                let i = choose|i: int|
                    0 <= i < front.len() && old_pieces[l].within(#[trigger] front[i]);
                assert(front[i] == c[i]);
                assert(!c[c.len() - 1].overlaps(c[i]));
                lemma_within_apart(all[k], all[l], last, c[i]);
            }
        }
    }
}

/// What an interval shares with intervals that do not overlap does not
/// overlap, and lies in the interval and in one of the others.
pub proof fn lemma_meet_each_keeps_apart(a: Span, c: Seq<Span>)
    requires
        non_overlapping(c),
    ensures
        non_overlapping(meet_each(a, c)),
        each_within(meet_each(a, c), c),
        forall|k: int| 0 <= k < meet_each(a, c).len() ==> (#[trigger] meet_each(a, c)[k]).within(a),
    decreases c.len(),
{
    if c.len() > 0 {
        let front = c.drop_last();
        let last = c.last();
        assert forall|i: int, j: int|
            0 <= i < front.len() && 0 <= j < front.len() && i != j implies !(#[trigger] front[i]).overlaps(
            #[trigger] front[j],
        ) by {
            assert(front[i] == c[i] && front[j] == c[j]);
        }
        lemma_meet_each_keeps_apart(a, front);
        let old_pieces = meet_each(a, front);
        let all = meet_each(a, c);
        let n = old_pieces.len() as int;
        assert forall|k: int| 0 <= k < all.len() implies (exists|i: int|
            0 <= i < c.len() && (#[trigger] all[k]).within(#[trigger] c[i])) && all[k].within(
            a,
        ) by {
            if k < n {
                assert(all[k] == old_pieces[k]);
                let i = choose|i: int|
                    0 <= i < front.len() && old_pieces[k].within(#[trigger] front[i]);
                assert(front[i] == c[i]);
            } else {
                assert(all[k] == a.meet(last).unwrap());
                assert(all[k].within(c[c.len() - 1]));
            }
        }
        assert forall|k: int, l: int|
            0 <= k < all.len() && 0 <= l < all.len() && k != l implies !(#[trigger] all[k]).overlaps(
            #[trigger] all[l],
        ) by {
            if k < n && l < n {
                assert(all[k] == old_pieces[k] && all[l] == old_pieces[l]);
            } else if k < n {
                assert(all[k] == old_pieces[k]);
                let i = choose|i: int|
                    0 <= i < front.len() && old_pieces[k].within(#[trigger] front[i]);
                assert(front[i] == c[i]);
                assert(!c[i].overlaps(c[c.len() - 1]));
                lemma_within_apart(all[k], all[l], c[i], last);
            } else {
                assert(all[l] == old_pieces[l]);
                let i = choose|i: int|
                    0 <= i < front.len() && old_pieces[l].within(#[trigger] front[i]);
                assert(front[i] == c[i]);
                assert(!c[c.len() - 1].overlaps(c[i]));
                lemma_within_apart(all[k], all[l], last, c[i]);
            }
        }
    }
}

/// What intervals that do not overlap share with intervals that do not
/// overlap does not overlap.
pub proof fn lemma_meet_all_keeps_apart(a: Seq<Span>, b: Seq<Span>)
    requires
        non_overlapping(a),
        non_overlapping(b),
    ensures
        non_overlapping(meet_all(a, b)),
        each_within(meet_all(a, b), b),
    decreases b.len(),
{
    if b.len() > 0 {
        let front = b.drop_last();
        let last = b.last();
        assert forall|i: int, j: int|
            0 <= i < front.len() && 0 <= j < front.len() && i != j implies !(#[trigger] front[i]).overlaps(
            #[trigger] front[j],
        ) by {
            assert(front[i] == b[i] && front[j] == b[j]);
        }
        lemma_meet_all_keeps_apart(a, front);
        lemma_meet_each_keeps_apart(last, a);
        let old_pieces = meet_all(a, front);
        let new_pieces = meet_each(last, a);
        let all = meet_all(a, b);
        let n = old_pieces.len() as int;
        assert(all == old_pieces + new_pieces);
        assert forall|k: int| 0 <= k < all.len() implies exists|i: int|
            0 <= i < b.len() && (#[trigger] all[k]).within(#[trigger] b[i]) by {
            if k < n {
                assert(all[k] == old_pieces[k]);
                let i = choose|i: int|
                    0 <= i < front.len() && old_pieces[k].within(#[trigger] front[i]);
                assert(front[i] == b[i]);
            } else {
                assert(all[k] == new_pieces[k - n]);
                assert(all[k].within(b[b.len() - 1]));
            }
        }
        assert forall|k: int, l: int|
            0 <= k < all.len() && 0 <= l < all.len() && k != l implies !(#[trigger] all[k]).overlaps(
            #[trigger] all[l],
        ) by {
            if k < n && l < n {
                assert(all[k] == old_pieces[k] && all[l] == old_pieces[l]);
            } else if k >= n && l >= n {
                assert(all[k] == new_pieces[k - n] && all[l] == new_pieces[l - n]);
            } else if k < n {
                assert(all[k] == old_pieces[k] && all[l] == new_pieces[l - n]);
                let i = choose|i: int|
                    0 <= i < front.len() && old_pieces[k].within(#[trigger] front[i]);
                assert(front[i] == b[i]);
                assert(!b[i].overlaps(b[b.len() - 1]));
                lemma_within_apart(all[k], all[l], b[i], last);
            } else {
                assert(all[l] == old_pieces[l] && all[k] == new_pieces[k - n]);
                let i = choose|i: int|
                    0 <= i < front.len() && old_pieces[l].within(#[trigger] front[i]);
                assert(front[i] == b[i]);
                assert(!b[b.len() - 1].overlaps(b[i]));
                lemma_within_apart(all[k], all[l], last, b[i]);
            }
        }
    }
}

/// With the ends of its intervals in order, the length of a prefix is
/// between nothing and the length of the whole.
pub proof fn lemma_total_length_of_prefix(c: Seq<Span>, i: int)
    requires
        well_formed(c),
        0 <= i <= c.len(),
    ensures
        0 <= total_length(c.take(i)) <= total_length(c),
    decreases c.len() - i,
{
    lemma_total_length_is_positive(c.take(i));
    if i < c.len() {
        lemma_total_length_of_prefix(c, i + 1);
        assert(c.take(i + 1).drop_last() =~= c.take(i));
        assert(c.take(i + 1).last() == c[i]);
        assert(c[i].well_formed());
    } else {
        assert(c.take(i) =~= c);
    }
}

/// With the ends of its intervals in order, a sequence has no negative
/// length.
pub proof fn lemma_total_length_is_positive(c: Seq<Span>)
    requires
        forall|i: int| 0 <= i < c.len() ==> (#[trigger] c[i]).lo <= c[i].hi,
    ensures
        0 <= total_length(c),
    decreases c.len(),
{
    if c.len() > 0 {
        let front = c.drop_last();
        assert forall|i: int| 0 <= i < front.len() implies (#[trigger] front[i]).lo
            <= front[i].hi by {
            assert(front[i] == c[i]);
        }
        lemma_total_length_is_positive(front);
        assert(c[c.len() - 1].lo <= c[c.len() - 1].hi);
    }
}

/// Intervals in normal form do not overlap.
pub proof fn lemma_normal_is_apart(r: Seq<Span>)
    requires
        normal(r),
    ensures
        non_overlapping(r),
{
    assert forall|i: int, j: int|
        0 <= i < r.len() && 0 <= j < r.len() && i != j implies !(#[trigger] r[i]).overlaps(
        #[trigger] r[j],
    ) by {
        assert(r[i].well_formed() && r[j].well_formed());
        if i < j {
            assert(r[i].hi < r[j].lo);
        } else {
            assert(r[j].hi < r[i].lo);
        }
    }
}

/// No point that intervals in normal form cover is below the first of them.
proof fn lemma_lowest_point(r: Seq<Span>, x: int)
    requires
        normal(r),
        covers_point(r, x),
    ensures
        r.len() > 0,
        r[0].lo <= x,
{
    let k = choose|k: int| 0 <= k < r.len() && (#[trigger] r[k]).contains(x);
    assert(r[0].well_formed());
    if k > 0 {
        assert(r[0].hi < r[k].lo);
    }
}

/// Intervals in normal form that cover the same points and stretches begin
/// with the same interval.
proof fn lemma_same_first(r1: Seq<Span>, r2: Seq<Span>)
    requires
        normal(r1),
        normal(r2),
        r1.len() > 0,
        forall|x: int| covers_point(r1, x) <==> covers_point(r2, x),
        forall|x: int| covers_stretch(r1, x) <==> covers_stretch(r2, x),
    ensures
        r2.len() > 0,
        r1[0] == r2[0],
{
    assert(r1[0].well_formed());
    assert(r1[0].contains(r1[0].lo));
    assert(covers_point(r2, r1[0].lo));
    lemma_lowest_point(r2, r1[0].lo);
    assert(r2[0].well_formed());
    assert(r2[0].contains(r2[0].lo));
    assert(covers_point(r1, r2[0].lo));
    lemma_lowest_point(r1, r2[0].lo);
    let t1 = r1[0].hi;
    let t2 = r2[0].hi;
    if t1 < t2 {
        assert(r2[0].spans(t1));
        assert(covers_stretch(r1, t1));
        let j = choose|j: int| 0 <= j < r1.len() && (#[trigger] r1[j]).spans(t1);
        if j > 0 {
            assert(r1[0].hi < r1[j].lo);
        }
    }
    if t2 < t1 {
        assert(r1[0].spans(t2));
        assert(covers_stretch(r2, t2));
        let j = choose|j: int| 0 <= j < r2.len() && (#[trigger] r2[j]).spans(t2);
        if j > 0 {
            assert(r2[0].hi < r2[j].lo);
        }
    }
}

/// What intervals in normal form cover behind the first of them is what the
/// others cover.
proof fn lemma_rest_of_normal(r: Seq<Span>)
    requires
        normal(r),
        r.len() > 0,
    ensures
        normal(r.drop_first()),
        forall|x: int| covers_point(r.drop_first(), x) <==> covers_point(r, x) && x > r[0].hi,
        forall|x: int| covers_stretch(r.drop_first(), x) <==> covers_stretch(r, x) && x > r[0].hi,
{
    let rest = r.drop_first();
    assert forall|i: int| 0 <= i < rest.len() implies (#[trigger] rest[i]).well_formed() by {
        assert(rest[i] == r[i + 1]);
    }
    assert forall|i: int, j: int| 0 <= i < j < rest.len() implies (#[trigger] rest[i]).hi < (
    #[trigger] rest[j]).lo by {
        assert(rest[i] == r[i + 1] && rest[j] == r[j + 1]);
    }
    assert(r[0].well_formed());
    assert forall|x: int| covers_point(rest, x) <==> covers_point(r, x) && x > r[0].hi by {
        if covers_point(rest, x) {
            let k = choose|k: int| 0 <= k < rest.len() && (#[trigger] rest[k]).contains(x);
            assert(rest[k] == r[k + 1]);
            assert(r[k + 1].contains(x));
            assert(r[0].hi < r[k + 1].lo);
        }
        if covers_point(r, x) && x > r[0].hi {
            let k = choose|k: int| 0 <= k < r.len() && (#[trigger] r[k]).contains(x);
            assert(rest[k - 1] == r[k]);
            assert(rest[k - 1].contains(x));
        }
    }
    assert forall|x: int| covers_stretch(rest, x) <==> covers_stretch(r, x) && x > r[0].hi by {
        if covers_stretch(rest, x) {
            let k = choose|k: int| 0 <= k < rest.len() && (#[trigger] rest[k]).spans(x);
            assert(rest[k] == r[k + 1]);
            assert(r[k + 1].spans(x));
            assert(r[0].hi < r[k + 1].lo);
        }
        if covers_stretch(r, x) && x > r[0].hi {
            let k = choose|k: int| 0 <= k < r.len() && (#[trigger] r[k]).spans(x);
            assert(rest[k - 1] == r[k]);
            assert(rest[k - 1].spans(x));
        }
    }
}

/// There is one normal form: sequences in normal form that cover the same
/// points and the same stretches are the same sequence.
pub proof fn lemma_normal_form_is_unique(r1: Seq<Span>, r2: Seq<Span>)
    requires
        normal(r1),
        normal(r2),
        forall|x: int| covers_point(r1, x) <==> covers_point(r2, x),
        forall|x: int| covers_stretch(r1, x) <==> covers_stretch(r2, x),
    ensures
        r1 == r2,
    decreases r1.len(),
{
    if r1.len() == 0 {
        if r2.len() > 0 {
            assert(r2[0].well_formed());
            assert(r2[0].contains(r2[0].lo));
            assert(covers_point(r2, r2[0].lo));
            assert(covers_point(r1, r2[0].lo));
        }
        assert(r1 =~= r2);
    } else {
        lemma_same_first(r1, r2);
        lemma_rest_of_normal(r1);
        lemma_rest_of_normal(r2);
        let t1 = r1.drop_first();
        let t2 = r2.drop_first();
        assert forall|x: int| covers_point(t1, x) <==> covers_point(t2, x) by {
            assert(covers_point(r1, x) <==> covers_point(r2, x));
        }
        assert forall|x: int| covers_stretch(t1, x) <==> covers_stretch(t2, x) by {
            assert(covers_stretch(r1, x) <==> covers_stretch(r2, x));
        }
        lemma_normal_form_is_unique(t1, t2);
        assert(r1 =~= seq![r1[0]] + r1.drop_first());
        assert(r2 =~= seq![r2[0]] + r2.drop_first());
    }
}

/// A union is determined by what it is the union of: whatever order the
/// intervals are given in, and however they are spread over the operands,
/// there is one result.
pub proof fn law_union_is_unique(r1: Seq<Span>, r2: Seq<Span>, c: Seq<Span>)
    requires
        is_union(r1, c),
        is_union(r2, c),
    ensures
        r1 == r2,
{
    lemma_normal_form_is_unique(r1, r2);
}

/// What two sequences cover at `x` is what they cover together.
pub proof fn lemma_covers_both(c1: Seq<Span>, c2: Seq<Span>, x: int)
    ensures
        covers_point(c1 + c2, x) <==> covers_point(c1, x) || covers_point(c2, x),
        covers_stretch(c1 + c2, x) <==> covers_stretch(c1, x) || covers_stretch(c2, x),
{
    let c = c1 + c2;
    if covers_point(c, x) {
        let k = choose|k: int| 0 <= k < c.len() && (#[trigger] c[k]).contains(x);
        if k < c1.len() {
            assert(c1[k].contains(x));
        } else {
            assert(c2[k - c1.len()].contains(x));
        }
    }
    if covers_point(c1, x) {
        let k = choose|k: int| 0 <= k < c1.len() && (#[trigger] c1[k]).contains(x);
        assert(c[k].contains(x));
    }
    if covers_point(c2, x) {
        let k = choose|k: int| 0 <= k < c2.len() && (#[trigger] c2[k]).contains(x);
        assert(c[c1.len() + k].contains(x));
    }
    if covers_stretch(c, x) {
        let k = choose|k: int| 0 <= k < c.len() && (#[trigger] c[k]).spans(x);
        if k < c1.len() {
            assert(c1[k].spans(x));
        } else {
            assert(c2[k - c1.len()].spans(x));
        }
    }
    if covers_stretch(c1, x) {
        let k = choose|k: int| 0 <= k < c1.len() && (#[trigger] c1[k]).spans(x);
        assert(c[k].spans(x));
    }
    if covers_stretch(c2, x) {
        let k = choose|k: int| 0 <= k < c2.len() && (#[trigger] c2[k]).spans(x);
        assert(c[c1.len() + k].spans(x));
    }
}

/// The order of the operands of a union does not matter.
pub proof fn law_union_is_commutative(r1: Seq<Span>, r2: Seq<Span>, a: Seq<Span>, b: Seq<Span>)
    requires
        is_union(r1, a + b),
        is_union(r2, b + a),
    ensures
        r1 == r2,
{
    assert forall|x: int| covers_point(r1, x) <==> covers_point(r2, x) by {
        lemma_covers_both(a, b, x);
        lemma_covers_both(b, a, x);
        assert(covers_point(r1, x) <==> covers_point(a + b, x));
        assert(covers_point(r2, x) <==> covers_point(b + a, x));
    }
    assert forall|x: int| covers_stretch(r1, x) <==> covers_stretch(r2, x) by {
        lemma_covers_both(a, b, x);
        lemma_covers_both(b, a, x);
        assert(covers_stretch(r1, x) <==> covers_stretch(a + b, x));
        assert(covers_stretch(r2, x) <==> covers_stretch(b + a, x));
    }
    lemma_normal_form_is_unique(r1, r2);
}

/// A union of a union is the union of all: what is first united can as well
/// be united later.
pub proof fn law_union_is_associative(r1: Seq<Span>, r2: Seq<Span>, a: Seq<Span>, b: Seq<Span>)
    requires
        is_union(r1, a),
        is_union(r2, r1 + b),
    ensures
        is_union(r2, a + b),
{
    assert forall|x: int| covers_point(r2, x) <==> covers_point(a + b, x) by {
        lemma_covers_both(r1, b, x);
        lemma_covers_both(a, b, x);
        assert(covers_point(r2, x) <==> covers_point(r1 + b, x));
        assert(covers_point(r1, x) <==> covers_point(a, x));
    }
    assert forall|x: int| covers_stretch(r2, x) <==> covers_stretch(a + b, x) by {
        lemma_covers_both(r1, b, x);
        lemma_covers_both(a, b, x);
        assert(covers_stretch(r2, x) <==> covers_stretch(r1 + b, x));
        assert(covers_stretch(r1, x) <==> covers_stretch(a, x));
    }
}

/// The union of a sequence in normal form with nothing is that sequence: a
/// union leaves a result of a union as it is.
pub proof fn law_union_is_idempotent(r: Seq<Span>, c: Seq<Span>)
    requires
        normal(c),
        is_union(r, c + Seq::<Span>::empty()),
    ensures
        r == c,
{
    assert(c + Seq::<Span>::empty() =~= c);
    lemma_normal_form_is_unique(r, c);
}

/// The result of a union has no two intervals that overlap, or touch.
pub proof fn law_union_is_apart(r: Seq<Span>, c: Seq<Span>)
    requires
        is_union(r, c),
    ensures
        non_overlapping(r),
{
    lemma_normal_is_apart(r);
}

/// An interval that is longer than a point shares itself with itself.
pub proof fn law_meet_with_itself(x: Span)
    requires
        x.lo < x.hi,
    ensures
        x.meet(x) == Some(x),
{
}

/// The union of an interval with itself is that interval alone.
pub proof fn law_union_with_itself(x: Span, r: Seq<Span>)
    requires
        x.well_formed(),
        is_union(r, seq![x, x]),
    ensures
        r == seq![x],
{
    let c = seq![x, x];
    let one = seq![x];
    assert forall|y: int| covers_point(one, y) <==> covers_point(c, y) by {
        if covers_point(one, y) {
            assert(c[0].contains(y));
        }
        if covers_point(c, y) {
            assert(one[0].contains(y));
        }
    }
    assert forall|y: int| covers_stretch(one, y) <==> covers_stretch(c, y) by {
        if covers_stretch(one, y) {
            assert(c[0].spans(y));
        }
        if covers_stretch(c, y) {
            assert(one[0].spans(y));
        }
    }
    lemma_normal_form_is_unique(r, one);
}

/// The union of two intervals: one run from the lower start to the higher
/// stop if they overlap or touch, else the two of them, the lower first.
pub open spec fn union_of_two(a: Span, b: Span) -> Seq<Span> {
    if a.hi < b.lo {
        seq![a, b]
    } else if b.hi < a.lo {
        seq![b, a]
    } else {
        seq![
            Span {
                lo: if a.lo < b.lo {
                    a.lo
                } else {
                    b.lo
                },
                hi: if a.hi > b.hi {
                    a.hi
                } else {
                    b.hi
                },
            },
        ]
    }
}

/// What the union of two intervals is.
pub proof fn law_union_of_two(a: Span, b: Span, r: Seq<Span>)
    requires
        a.well_formed(),
        b.well_formed(),
        is_union(r, seq![a, b]),
    ensures
        r == union_of_two(a, b),
{
    let c = seq![a, b];
    let u = union_of_two(a, b);
    assert forall|y: int| covers_point(u, y) <==> covers_point(c, y) by {
        if covers_point(u, y) {
            let k = choose|k: int| 0 <= k < u.len() && (#[trigger] u[k]).contains(y);
            if a.contains(y) {
                assert(c[0].contains(y));
            } else {
                assert(c[1].contains(y));
            }
        }
        if covers_point(c, y) {
            let k = choose|k: int| 0 <= k < c.len() && (#[trigger] c[k]).contains(y);
            if u.len() == 1 {
                assert(u[0].contains(y));
            } else if u[0].contains(y) {
            } else {
                assert(u[1].contains(y));
            }
        }
    }
    assert forall|y: int| covers_stretch(u, y) <==> covers_stretch(c, y) by {
        if covers_stretch(u, y) {
            let k = choose|k: int| 0 <= k < u.len() && (#[trigger] u[k]).spans(y);
            if a.spans(y) {
                assert(c[0].spans(y));
            } else {
                assert(c[1].spans(y));
            }
        }
        if covers_stretch(c, y) {
            let k = choose|k: int| 0 <= k < c.len() && (#[trigger] c[k]).spans(y);
            if u.len() == 1 {
                assert(u[0].spans(y));
            } else if u[0].spans(y) {
            } else {
                assert(u[1].spans(y));
            }
        }
    }
    lemma_normal_form_is_unique(r, u);
}

/// The union of two intervals is not longer than the two together.
pub proof fn law_union_is_not_longer(a: Span, b: Span, r: Seq<Span>)
    requires
        a.well_formed(),
        b.well_formed(),
        is_union(r, seq![a, b]),
    ensures
        total_length(r) <= a.length() + b.length(),
{
    law_union_of_two(a, b, r);
    reveal_with_fuel(total_length, 3);
    if r.len() == 2 {
        assert(r.drop_last().drop_last() =~= Seq::<Span>::empty());
    }
}

/// The union of two intervals is as long as the two together if and only if
/// they do not overlap. An interval that is a single point in the middle of
/// the other is left out: it overlaps, and adds no length.
pub proof fn law_union_length_tells_overlap(a: Span, b: Span, r: Seq<Span>)
    requires
        a.well_formed(),
        b.well_formed(),
        !(a.overlaps(b) && (a.lo == a.hi || b.lo == b.hi)),
        is_union(r, seq![a, b]),
    ensures
        total_length(r) == a.length() + b.length() <==> !a.overlaps(b),
{
    law_union_of_two(a, b, r);
    reveal_with_fuel(total_length, 3);
    if r.len() == 2 {
        assert(r.drop_last().drop_last() =~= Seq::<Span>::empty());
    }
}

/// The pieces of two intervals: what is left of the first without the
/// second, what they share, and what is left of the second without the
/// first.
pub open spec fn pieces(a: Span, b: Span) -> Seq<Span> {
    a.cut(b) + shared(a, b) + b.cut(a)
}

/// The pieces of two intervals cover exactly the points of the two.
pub proof fn law_pieces_cover_both(a: Span, b: Span)
    requires
        a.well_formed(),
        b.well_formed(),
    ensures
        forall|x: int| covers_point(pieces(a, b), x) <==> a.contains(x) || b.contains(x),
{
    let p = pieces(a, b);
    assert forall|x: int| covers_point(p, x) <==> a.contains(x) || b.contains(x) by {
        if covers_point(p, x) {
            let k = choose|k: int| 0 <= k < p.len() && (#[trigger] p[k]).contains(x);
        }
        if a.contains(x) || b.contains(x) {
            if !a.overlaps(b) {
                if a.contains(x) {
                    assert(p[0].contains(x));
                } else {
                    assert(p[1].contains(x));
                }
            } else {
                let m = a.meet(b).unwrap();
                let n = a.cut(b).len() as int;
                assert(p[n] == m);
                if m.contains(x) {
                } else if a.contains(x) {
                    if x < m.lo {
                        assert(p[0].contains(x));
                    } else {
                        assert(p[n - 1].contains(x));
                    }
                } else {
                    if x < m.lo {
                        assert(p[n + 1].contains(x));
                    } else {
                        assert(p[p.len() - 1].contains(x));
                    }
                }
            }
        }
    }
}

/// What two intervals share, as a sequence: one interval, or none.
pub open spec fn shared(a: Span, b: Span) -> Seq<Span> {
    match a.meet(b) {
        Some(m) => seq![m],
        None => Seq::empty(),
    }
}

/// The union of the pieces of two intervals, taken two at a time, covers
/// exactly the points of the two intervals: with `r1` for
/// `(a - b) + (a & b)` and `r2` for `r1 + (b - a)`.
pub proof fn law_union_of_pieces_covers_both(a: Span, b: Span, r1: Seq<Span>, r2: Seq<Span>)
    requires
        a.well_formed(),
        b.well_formed(),
        is_union(r1, a.cut(b) + shared(a, b)),
        is_union(r2, r1 + b.cut(a)),
    ensures
        forall|x: int| covers_point(r2, x) <==> a.contains(x) || b.contains(x),
{
    law_union_is_associative(r1, r2, a.cut(b) + shared(a, b), b.cut(a));
    law_pieces_cover_both(a, b);
}

} // verus!
