//! Intervals as text: `[0, 1]` for an interval, `[[0, 1], [2, 3]]` for a
//! collection.

use super::collection::IntervalCollection;
use super::interval::Interval;
use super::scalar::Scalar;
use super::span::Span;
use vstd::prelude::*;
use vstd::string::StringExecFns;

verus! {

/// The character of a decimal digit.
pub open spec fn digit_char(d: int) -> char {
    if d == 0 {
        '0'
    } else if d == 1 {
        '1'
    } else if d == 2 {
        '2'
    } else if d == 3 {
        '3'
    } else if d == 4 {
        '4'
    } else if d == 5 {
        '5'
    } else if d == 6 {
        '6'
    } else if d == 7 {
        '7'
    } else if d == 8 {
        '8'
    } else {
        '9'
    }
}

/// The decimal digits of a natural number, without leading zeros.
pub open spec fn digits_of(n: nat) -> Seq<char>
    decreases n,
{
    if n < 10 {
        seq![digit_char(n as int)]
    } else {
        digits_of(n / 10).push(digit_char((n % 10) as int))
    }
}

/// An integer in decimal, with a minus sign if it is negative.
pub open spec fn decimal_text(v: int) -> Seq<char> {
    if v < 0 {
        seq!['-'] + digits_of((-v) as nat)
    } else {
        digits_of(v as nat)
    }
}

/// An interval as text: its ends in decimal, in square brackets.
pub open spec fn span_text(s: Span) -> Seq<char> {
    seq!['['] + decimal_text(s.lo) + seq![',', ' '] + decimal_text(s.hi) + seq![']']
}

/// Intervals as text, with a comma and a space between them.
pub open spec fn spans_joined(c: Seq<Span>) -> Seq<char>
    decreases c.len(),
{
    if c.len() == 0 {
        Seq::empty()
    } else if c.len() == 1 {
        span_text(c[0])
    } else {
        spans_joined(c.drop_last()) + seq![',', ' '] + span_text(c.last())
    }
}

/// A collection as text: its intervals, in square brackets.
pub open spec fn spans_text(c: Seq<Span>) -> Seq<char> {
    seq!['['] + spans_joined(c) + seq![']']
}

/// Digits given least significant first, as characters, most significant
/// first.
pub open spec fn most_significant_first(digits: Seq<u8>) -> Seq<char> {
    Seq::new(digits.len(), |k: int| digit_char(digits[digits.len() - 1 - k] as int))
}

fn digit_str(d: u8) -> (r: &'static str)
    requires
        d < 10,
    ensures
        r@ == seq![digit_char(d as int)],
{
    proof {
        reveal_strlit("0");
        reveal_strlit("1");
        reveal_strlit("2");
        reveal_strlit("3");
        reveal_strlit("4");
        reveal_strlit("5");
        reveal_strlit("6");
        reveal_strlit("7");
        reveal_strlit("8");
        reveal_strlit("9");
    }
    let r = if d == 0 {
        "0"
    } else if d == 1 {
        "1"
    } else if d == 2 {
        "2"
    } else if d == 3 {
        "3"
    } else if d == 4 {
        "4"
    } else if d == 5 {
        "5"
    } else if d == 6 {
        "6"
    } else if d == 7 {
        "7"
    } else if d == 8 {
        "8"
    } else {
        "9"
    };
    assert(r@ =~= seq![digit_char(d as int)]);
    r
}

/// The number of the given magnitude in decimal, with a minus sign if
/// `negative`.
pub fn decimal_string(negative: bool, magnitude: u64) -> (r: String)
    ensures
        r@ == if negative {
            seq!['-'] + digits_of(magnitude as nat)
        } else {
            digits_of(magnitude as nat)
        },
{
    let mut digits: Vec<u8> = Vec::new();
    let mut m = magnitude;
    assert(digits_of(magnitude as nat) =~= digits_of(m as nat) + most_significant_first(digits@));
    while m >= 10
        invariant
            digits_of(magnitude as nat) == digits_of(m as nat) + most_significant_first(digits@),
            forall|k: int| 0 <= k < digits@.len() ==> #[trigger] digits@[k] < 10,
        decreases m,
    {
        let ghost before = digits@;
        digits.push((m % 10) as u8);
        proof {
            assert(most_significant_first(digits@) =~= seq![digit_char((m % 10) as int)]
                + most_significant_first(before));
            assert(digits_of(m as nat) == digits_of((m / 10) as nat).push(
                digit_char((m % 10) as int),
            ));
            assert(digits_of((m / 10) as nat).push(digit_char((m % 10) as int))
                + most_significant_first(before) =~= digits_of((m / 10) as nat)
                + most_significant_first(digits@));
        }
        m = m / 10;
    }
    let ghost before = digits@;
    digits.push(m as u8);
    let ghost text = most_significant_first(digits@);
    proof {
        assert(text =~= seq![digit_char(m as int)] + most_significant_first(before));
        assert(text =~= digits_of(magnitude as nat));
    }
    let mut r = if negative {
        String::from_str("-")
    } else {
        String::new()
    };
    let ghost sign = r@;
    proof {
        reveal_strlit("-");
        assert(sign =~= if negative {
            seq!['-']
        } else {
            Seq::<char>::empty()
        });
        assert(r@ =~= sign + text.take(0));
    }
    let mut i: usize = digits.len();
    while i > 0
        invariant
            i <= digits@.len(),
            text == most_significant_first(digits@),
            forall|k: int| 0 <= k < digits@.len() ==> #[trigger] digits@[k] < 10,
            r@ == sign + text.take(digits@.len() - i),
        decreases i,
    {
        i -= 1;
        let ghost so_far = r@;
        r.append(digit_str(digits[i]));
        assert(r@ =~= sign + text.take(digits@.len() - i)) by {
            assert(text[digits@.len() - i - 1] == digit_char(digits@[i as int] as int));
            assert(text.take(digits@.len() - i) =~= text.take(digits@.len() - i - 1).push(
                text[digits@.len() - i - 1],
            ));
        }
    }
    assert(text.take(digits@.len() as int) =~= text);
    assert(sign + text =~= if negative {
        seq!['-'] + digits_of(magnitude as nat)
    } else {
        digits_of(magnitude as nat)
    });
    r
}

impl<T: Scalar> Interval<T> {
    /// The interval as text, such as `[0, 1]`.
    pub fn to_string(&self) -> (r: String)
        ensures
            r@ == span_text(self@),
    {
        let mut r = String::from_str("[");
        proof {
            reveal_strlit("[");
            reveal_strlit(", ");
            reveal_strlit("]");
        }
        let start = self.start.to_decimal();
        r.append(start.as_str());
        r.append(", ");
        let stop = self.stop.to_decimal();
        r.append(stop.as_str());
        r.append("]");
        assert(r@ =~= span_text(self@));
        r
    }
}

impl<T: Scalar> IntervalCollection<T> {
    /// The collection as text, such as `[[0, 1], [2, 3]]`.
    pub fn to_string(&self) -> (r: String)
        ensures
            r@ == spans_text(self@),
    {
        let mut r = String::from_str("[");
        proof {
            reveal_strlit("[");
            reveal_strlit(", ");
            reveal_strlit("]");
            assert(self@.take(0) =~= Seq::<Span>::empty());
            assert(r@ =~= seq!['['] + spans_joined(self@.take(0)));
        }
        let mut i: usize = 0;
        while i < self.elts.len()
            invariant
                i <= self.elts@.len(),
                r@ == seq!['['] + spans_joined(self@.take(i as int)),
                ", "@ == seq![',', ' '],
            decreases self.elts.len() - i,
        {
            let ghost so_far = r@;
            if i > 0 {
                r.append(", ");
            }
            let elt = self.elts[i].to_string();
            r.append(elt.as_str());
            proof {
                let next = self@.take(i + 1);
                assert(next.drop_last() =~= self@.take(i as int));
                assert(next.last() == self.elts@[i as int]@);
                assert(next[0] == self@[0]);
                assert(r@ =~= seq!['['] + spans_joined(next));
            }
            i += 1;
        }
        r.append("]");
        assert(self@.take(i as int) =~= self@);
        assert(r@ =~= spans_text(self@));
        r
    }
}

} // verus!
