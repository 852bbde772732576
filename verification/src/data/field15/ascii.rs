//! Byte classes and decimal fields of the route alphabet.

use vstd::prelude::*;

verus! {

/// An upper-case letter, `A` to `Z`.
pub open spec fn is_upper(b: u8) -> bool {
    'A' as u8 <= b <= 'Z' as u8
}

/// A decimal digit, `0` to `9`.
pub open spec fn is_digit(b: u8) -> bool {
    '0' as u8 <= b <= '9' as u8
}

/// Every byte is an upper-case letter.
pub open spec fn all_upper(s: Seq<u8>) -> bool {
    forall|i: int| 0 <= i < s.len() ==> is_upper(#[trigger] s[i])
}

/// Every byte is a decimal digit.
pub open spec fn all_digits(s: Seq<u8>) -> bool {
    forall|i: int| 0 <= i < s.len() ==> is_digit(#[trigger] s[i])
}

/// Some byte is a decimal digit.
pub open spec fn has_digit(s: Seq<u8>) -> bool {
    exists|i: int| 0 <= i < s.len() && is_digit(#[trigger] s[i])
}

/// `t` begins with the bytes `prefix`.
pub open spec fn starts_with(t: Seq<u8>, prefix: Seq<u8>) -> bool {
    prefix.len() <= t.len() && t.subrange(0, prefix.len() as int) == prefix
}

/// `t` ends with the bytes `suffix`.
pub open spec fn ends_with(t: Seq<u8>, suffix: Seq<u8>) -> bool {
    suffix.len() <= t.len() && t.subrange(t.len() - suffix.len(), t.len() as int) == suffix
}

/// The number that a run of digits writes in base ten, most significant
/// digit first.
pub open spec fn decimal_value(s: Seq<u8>) -> nat
    decreases s.len(),
{
    if s.len() == 0 {
        0
    } else {
        (decimal_value(s.drop_last()) * 10 + (s.last() - '0' as u8)) as nat
    }
}

/// A run of `n` digits writes a number below `10^n`; stated for the widths
/// that route fields have.
pub proof fn lemma_decimal_value_bound(s: Seq<u8>)
    requires
        all_digits(s),
        s.len() <= 5,
    ensures
        s.len() == 0 ==> decimal_value(s) == 0,
        s.len() == 1 ==> decimal_value(s) <= 9,
        s.len() == 2 ==> decimal_value(s) <= 99,
        s.len() == 3 ==> decimal_value(s) <= 999,
        s.len() == 4 ==> decimal_value(s) <= 9999,
        s.len() == 5 ==> decimal_value(s) <= 99999,
    decreases s.len(),
{
    if s.len() > 0 {
        let front = s.drop_last();
        assert forall|i: int| 0 <= i < front.len() implies is_digit(#[trigger] front[i]) by {
            assert(front[i] == s[i]);
        }
        lemma_decimal_value_bound(front);
        assert(is_digit(s[s.len() - 1]));
    }
}

pub fn byte_is_upper(b: u8) -> (r: bool)
    ensures
        r == is_upper(b),
{
    'A' as u8 <= b && b <= 'Z' as u8
}

pub fn byte_is_digit(b: u8) -> (r: bool)
    ensures
        r == is_digit(b),
{
    '0' as u8 <= b && b <= '9' as u8
}

/// Whether `s[from..to]` holds upper-case letters only.
pub fn range_all_upper(s: &[u8], from: usize, to: usize) -> (r: bool)
    requires
        from <= to <= s@.len(),
    ensures
        r == all_upper(s@.subrange(from as int, to as int)),
{
    let mut i: usize = from;
    while i < to
        invariant
            from <= i <= to <= s@.len(),
            forall|j: int| from <= j < i ==> is_upper(#[trigger] s@[j]),
        decreases to - i,
    {
        if !byte_is_upper(s[i]) {
            assert(!is_upper(s@.subrange(from as int, to as int)[i - from]));
            return false;
        }
        i += 1;
    }
    true
}

/// Whether `s[from..to]` holds decimal digits only.
pub fn range_all_digits(s: &[u8], from: usize, to: usize) -> (r: bool)
    requires
        from <= to <= s@.len(),
    ensures
        r == all_digits(s@.subrange(from as int, to as int)),
{
    let mut i: usize = from;
    while i < to
        invariant
            from <= i <= to <= s@.len(),
            forall|j: int| from <= j < i ==> is_digit(#[trigger] s@[j]),
        decreases to - i,
    {
        if !byte_is_digit(s[i]) {
            assert(!is_digit(s@.subrange(from as int, to as int)[i - from]));
            return false;
        }
        i += 1;
    }
    true
}

/// Whether `s` holds a decimal digit anywhere.
pub fn any_digit(s: &[u8]) -> (r: bool)
    ensures
        r == has_digit(s@),
{
    let mut i: usize = 0;
    while i < s.len()
        invariant
            i <= s@.len(),
            forall|j: int| 0 <= j < i ==> !is_digit(#[trigger] s@[j]),
        decreases s.len() - i,
    {
        if byte_is_digit(s[i]) {
            return true;
        }
        i += 1;
    }
    false
}

/// Reads `s[from..to]`, at most four bytes, as a decimal number: the number
/// if every byte is a digit, nothing otherwise.
pub fn range_decimal(s: &[u8], from: usize, to: usize) -> (r: Option<u16>)
    requires
        from <= to <= s@.len(),
        to - from <= 4,
    ensures
        all_digits(s@.subrange(from as int, to as int)) ==> r == Some(
            decimal_value(s@.subrange(from as int, to as int)) as u16,
        ) && decimal_value(s@.subrange(from as int, to as int)) <= 9999,
        !all_digits(s@.subrange(from as int, to as int)) ==> r.is_none(),
{
    let mut value: u16 = 0;
    let mut i: usize = from;
    while i < to
        invariant
            from <= i <= to <= s@.len(),
            to - from <= 4,
            all_digits(s@.subrange(from as int, i as int)),
            value == decimal_value(s@.subrange(from as int, i as int)),
        decreases to - i,
    {
        if !byte_is_digit(s[i]) {
            assert(!is_digit(s@.subrange(from as int, to as int)[i - from]));
            return None;
        }
        proof {
            let next = s@.subrange(from as int, i + 1);
            assert(next.drop_last() =~= s@.subrange(from as int, i as int));
            assert(next.last() == s@[i as int]);
            assert(all_digits(next));
            lemma_decimal_value_bound(s@.subrange(from as int, i as int));
            lemma_decimal_value_bound(next);
        }
        value = value * 10 + (s[i] - '0' as u8) as u16;
        i += 1;
    }
    proof {
        lemma_decimal_value_bound(s@.subrange(from as int, to as int));
    }
    Some(value)
}

/// Whether two byte strings are the same.
pub fn same_bytes(a: &[u8], b: &[u8]) -> (r: bool)
    ensures
        r == (a@ == b@),
{
    if a.len() != b.len() {
        return false;
    }
    let mut i: usize = 0;
    while i < a.len()
        invariant
            a@.len() == b@.len(),
            i <= a@.len(),
            forall|j: int| 0 <= j < i ==> a@[j] == b@[j],
        decreases a.len() - i,
    {
        if a[i] != b[i] {
            return false;
        }
        i += 1;
    }
    assert(a@ =~= b@);
    true
}

/// Whether `t` begins with `prefix`.
pub fn begins_with(t: &[u8], prefix: &[u8]) -> (r: bool)
    ensures
        r == starts_with(t@, prefix@),
{
    let n = prefix.len();
    if n > t.len() {
        return false;
    }
    let mut i: usize = 0;
    while i < n
        invariant
            n == prefix@.len(),
            n <= t@.len(),
            i <= n,
            forall|j: int| 0 <= j < i ==> t@[j] == prefix@[j],
        decreases n - i,
    {
        if t[i] != prefix[i] {
            assert(t@.subrange(0, n as int)[i as int] != prefix@[i as int]);
            return false;
        }
        i += 1;
    }
    assert(t@.subrange(0, n as int) =~= prefix@);
    true
}

/// Whether `t` ends with `suffix`.
pub fn finishes_with(t: &[u8], suffix: &[u8]) -> (r: bool)
    ensures
        r == ends_with(t@, suffix@),
{
    let n = suffix.len();
    if n > t.len() {
        return false;
    }
    let skip = t.len() - n;
    let mut i: usize = 0;
    while i < n
        invariant
            n == suffix@.len(),
            skip + n == t.len(),
            i <= n,
            forall|j: int| 0 <= j < i ==> t@[skip + j] == suffix@[j],
        decreases n - i,
    {
        if t[skip + i] != suffix[i] {
            assert(t@.subrange(skip as int, t@.len() as int)[i as int] != suffix@[i as int]);
            return false;
        }
        i += 1;
    }
    assert(t@.subrange(skip as int, t@.len() as int) =~= suffix@);
    true
}

/// `needle` stands at `i` in `s` and nowhere before.
pub open spec fn occurs_first_at(s: Seq<u8>, needle: u8, i: int) -> bool {
    &&& 0 <= i < s.len()
    &&& s[i] == needle
    &&& forall|j: int| 0 <= j < i ==> #[trigger] s[j] != needle
}

/// Where the first `needle` stands in `s`, if there is one.
pub open spec fn first_index(s: Seq<u8>, needle: u8) -> Option<int> {
    if exists|i: int| occurs_first_at(s, needle, i) {
        Some(choose|i: int| occurs_first_at(s, needle, i))
    } else {
        None
    }
}

/// A first occurrence is the first occurrence.
pub proof fn lemma_first_index_found(s: Seq<u8>, needle: u8, i: int)
    requires
        occurs_first_at(s, needle, i),
    ensures
        first_index(s, needle) == Some(i),
{
    let k = choose|k: int| occurs_first_at(s, needle, k);
    if k < i {
        assert(s[k] != needle);
    }
    if i < k {
        assert(s[i] != needle);
    }
}

/// A byte that does not occur has no first occurrence.
pub proof fn lemma_first_index_absent(s: Seq<u8>, needle: u8)
    requires
        forall|j: int| 0 <= j < s.len() ==> #[trigger] s[j] != needle,
    ensures
        first_index(s, needle).is_none(),
{
}

/// Where the first `needle` stands in `s`, if there is one.
pub fn find_byte(s: &[u8], needle: u8) -> (r: Option<usize>)
    ensures
        match r {
            Some(i) => first_index(s@, needle) == Some(i as int),
            None => first_index(s@, needle).is_none(),
        },
{
    let mut i: usize = 0;
    while i < s.len()
        invariant
            i <= s@.len(),
            forall|j: int| 0 <= j < i ==> #[trigger] s@[j] != needle,
        decreases s.len() - i,
    {
        if s[i] == needle {
            proof {
                lemma_first_index_found(s@, needle, i as int);
            }
            return Some(i);
        }
        i += 1;
    }
    proof {
        lemma_first_index_absent(s@, needle);
    }
    None
}

} // verus!
