//! What holds of the pass over the tokens of a route.

use super::ascii::{
    all_upper, first_index, is_digit, is_upper, lemma_decimal_value_bound,
    lemma_first_index_absent, lemma_first_index_found, occurs_first_at,
};
use super::elements::{ConnectorView, ElementView, Modifier};
use super::grammar::{
    has_shape, is_coordinate, is_number, is_procedure, latitude_mark, lemma_text_of_keywords,
    longitude_mark, parse_altitude, parse_bearing_distance, parse_modifier, parse_point,
    parse_reference_point, text, without_plus,
};
use super::pass::{
    claims_first_point, classify, elements_from, elements_of, ends_with_direct, is_blank,
    is_delimiter, is_slash, lemma_word_len, lemma_word_len_bounds, route_elements, tokens_of,
    word_len,
};
use vstd::prelude::*;

verus! {

/// What lies behind the truncation mark does not count: whatever follows
/// the first `T`, the elements are those of the tokens up to it.
pub proof fn law_nothing_after_truncation(head: Seq<Seq<u8>>, tail: Seq<Seq<u8>>)
    ensures
        elements_of(head + seq![text("T")] + tail) == elements_of(head + seq![text("T")]),
{
    let long = head + seq![text("T")] + tail;
    let short = head + seq![text("T")];
    assert forall|i: int| 0 <= i <= head.len() implies long[i] == short[i] by {}
    lemma_same_up_to_truncation(long, short, head.len() as int, 0, false, Seq::empty());
}

/// Token sequences that agree up to a `T` at `k` give the same elements.
proof fn lemma_same_up_to_truncation(
    a: Seq<Seq<u8>>,
    b: Seq<Seq<u8>>,
    k: int,
    i: int,
    first_point_parsed: bool,
    out: Seq<ElementView>,
)
    requires
        0 <= i <= k,
        k < a.len(),
        k < b.len(),
        a[k] == text("T"),
        forall|j: int| 0 <= j <= k ==> a[j] == b[j],
    ensures
        elements_from(a, i, first_point_parsed, out) == elements_from(
            b,
            i,
            first_point_parsed,
            out,
        ),
    decreases k - i,
{
    if i < k && a[i] != text("T") {
        let e = classify(a[i], false, first_point_parsed, ends_with_direct(out));
        match e {
            Some(e) => lemma_same_up_to_truncation(
                a,
                b,
                k,
                i + 1,
                first_point_parsed || claims_first_point(e),
                out.push(e),
            ),
            None => lemma_same_up_to_truncation(a, b, k, i + 1, first_point_parsed, out),
        }
    }
}

/// Text that ends where a delimiter begins has its own tokens: the tokens
/// of the whole are those of the text, then those of what follows. No token
/// reaches across a delimiter.
pub proof fn law_tokens_of_parts(front: Seq<u8>, back: Seq<u8>)
    requires
        back.len() > 0,
        is_delimiter(back[0]),
    ensures
        tokens_of(front + back) == tokens_of(front) + tokens_of(back),
    decreases front.len(),
{
    let whole = front + back;
    if front.len() == 0 {
        assert(whole =~= back);
        assert(tokens_of(front) + tokens_of(back) =~= tokens_of(back));
    } else {
        assert(whole[0] == front[0]);
        if is_blank(front[0]) || is_slash(front[0]) {
            assert(whole.drop_first() =~= front.drop_first() + back);
            assert(whole.subrange(0, 1) =~= front.subrange(0, 1));
            law_tokens_of_parts(front.drop_first(), back);
            if is_slash(front[0]) {
                assert(tokens_of(whole) =~= tokens_of(front) + tokens_of(back));
            }
        } else {
            lemma_word_len_bounds(front);
            let n = word_len(front);
            assert forall|i: int| 0 <= i < n implies !is_delimiter(#[trigger] whole[i]) by {
                assert(whole[i] == front[i]);
            }
            assert(n == whole.len() || is_delimiter(whole[n])) by {
                if n < front.len() {
                    lemma_word_ends_at_delimiter(front);
                    assert(whole[n] == front[n]);
                } else {
                    assert(whole[n] == back[0]);
                }
            }
            lemma_word_len(whole, n);
            assert(whole.subrange(0, n) =~= front.subrange(0, n));
            assert(whole.subrange(n, whole.len() as int) =~= front.subrange(n, front.len() as int)
                + back);
            law_tokens_of_parts(front.subrange(n, front.len() as int), back);
            assert(tokens_of(whole) =~= tokens_of(front) + tokens_of(back));
        }
    }
}

/// A word between delimiters is one token: text that is not empty and
/// holds no delimiter is its own and only token.
pub proof fn law_word_is_one_token(word: Seq<u8>)
    requires
        word.len() > 0,
        forall|i: int| 0 <= i < word.len() ==> !is_delimiter(#[trigger] word[i]),
    ensures
        tokens_of(word) == seq![word],
{
    lemma_word_len(word, word.len() as int);
    assert(word.subrange(0, word.len() as int) =~= word);
    let rest = word.subrange(word.len() as int, word.len() as int);
    assert(rest.len() == 0);
    assert(tokens_of(rest) =~= Seq::<Seq<u8>>::empty());
    assert(tokens_of(word) =~= seq![word]);
}

/// A blank is no token, and a slash is one: in front of any text, a blank
/// adds nothing to its tokens, and a slash adds itself.
pub proof fn law_delimiters_in_front(b: u8, rest: Seq<u8>)
    ensures
        is_blank(b) ==> tokens_of(seq![b] + rest) == tokens_of(rest),
        is_slash(b) ==> tokens_of(seq![b] + rest) == seq![seq![b]] + tokens_of(rest),
{
    let s = seq![b] + rest;
    assert(s[0] == b);
    assert(s.drop_first() =~= rest);
    assert(s.subrange(0, 1) =~= seq![b]);
}

/// The bytes of the tokens, one token after the other.
pub open spec fn joined(tokens: Seq<Seq<u8>>) -> Seq<u8>
    decreases tokens.len(),
{
    if tokens.len() == 0 {
        Seq::empty()
    } else {
        tokens[0] + joined(tokens.drop_first())
    }
}

/// The text without its blanks.
pub open spec fn without_blanks(s: Seq<u8>) -> Seq<u8>
    decreases s.len(),
{
    if s.len() == 0 {
        Seq::empty()
    } else if is_blank(s[0]) {
        without_blanks(s.drop_first())
    } else {
        seq![s[0]] + without_blanks(s.drop_first())
    }
}

/// Text without blanks in front of other text stays as it is.
proof fn lemma_without_blanks_of_parts(front: Seq<u8>, back: Seq<u8>)
    requires
        forall|i: int| 0 <= i < front.len() ==> !is_blank(#[trigger] front[i]),
    ensures
        without_blanks(front + back) == front + without_blanks(back),
    decreases front.len(),
{
    let whole = front + back;
    if front.len() == 0 {
        assert(whole =~= back);
        assert(front + without_blanks(back) =~= without_blanks(back));
    } else {
        assert(whole[0] == front[0]);
        assert(whole.drop_first() =~= front.drop_first() + back);
        assert forall|i: int| 0 <= i < front.drop_first().len() implies !is_blank(
            #[trigger] front.drop_first()[i],
        ) by {
            assert(front.drop_first()[i] == front[i + 1]);
        }
        lemma_without_blanks_of_parts(front.drop_first(), back);
        assert(seq![front[0]] + (front.drop_first() + without_blanks(back)) =~= front
            + without_blanks(back));
    }
}

/// The tokens keep the text: one after the other, they are the route
/// without its blanks, byte for byte and in the order of the route.
pub proof fn law_tokens_keep_the_text(s: Seq<u8>)
    ensures
        joined(tokens_of(s)) == without_blanks(s),
    decreases s.len(),
{
    if s.len() == 0 {
    } else if is_blank(s[0]) {
        law_tokens_keep_the_text(s.drop_first());
    } else if is_slash(s[0]) {
        let rest = s.drop_first();
        law_tokens_keep_the_text(rest);
        let tokens = tokens_of(s);
        assert(tokens[0] == s.subrange(0, 1));
        assert(tokens.drop_first() =~= tokens_of(rest));
        assert(s.subrange(0, 1) =~= seq![s[0]]);
    } else {
        lemma_word_len_bounds(s);
        let n = word_len(s);
        let word = s.subrange(0, n);
        let rest = s.subrange(n, s.len() as int);
        law_tokens_keep_the_text(rest);
        let tokens = tokens_of(s);
        assert(tokens[0] == word);
        assert(tokens.drop_first() =~= tokens_of(rest));
        assert forall|i: int| 0 <= i < word.len() implies !is_blank(#[trigger] word[i]) by {
            assert(word[i] == s[i]);
        }
        assert(s =~= word + rest);
        lemma_without_blanks_of_parts(word, rest);
    }
}

/// A word ends at the end of the text or at a delimiter.
proof fn lemma_word_ends_at_delimiter(s: Seq<u8>)
    ensures
        word_len(s) == s.len() || is_delimiter(s[word_len(s)]),
    decreases s.len(),
{
    if s.len() > 0 && !is_delimiter(s[0]) {
        lemma_word_ends_at_delimiter(s.drop_first());
        lemma_word_len_bounds(s.drop_first());
        let n = word_len(s.drop_first());
        if n < s.drop_first().len() {
            assert(s.drop_first()[n] == s[n + 1]);
        }
    }
}

/// In a route, what follows a `T` that stands alone does not count: the
/// elements are those of the route up to it.
pub proof fn law_route_is_cut_at_truncation(head: Seq<u8>, tail: Seq<u8>)
    ensures
        route_elements(head + text(" T ") + tail) == route_elements(head + text(" T")),
{
    reveal_strlit(" T ");
    vstd::utf8::is_ascii_chars_encode_utf8(" T "@);
    reveal_strlit(" T");
    vstd::utf8::is_ascii_chars_encode_utf8(" T"@);
    lemma_text_of_keywords();
    let mark = seq![' ' as u8, 'T' as u8];
    let blank = seq![' ' as u8];
    assert(text(" T ") =~= mark + blank);
    assert(text(" T") =~= mark);
    // The mark alone is the token `T`.
    assert(tokens_of(mark) == seq![text("T")]) by {
        let t = mark.drop_first();
        assert(t =~= seq!['T' as u8]);
        assert(word_len(t) == 1) by {
            lemma_word_len(t, 1);
        }
        assert(t.subrange(0, 1) =~= text("T"));
        assert(t.subrange(1, 1) =~= Seq::<u8>::empty());
        assert(tokens_of(t.subrange(1, 1)) =~= Seq::<Seq<u8>>::empty());
        assert(tokens_of(t) =~= seq![text("T")]);
    }
    let rest = blank + tail;
    assert(head + text(" T ") + tail =~= head + (mark + rest));
    assert(mark + rest =~= seq![' ' as u8] + (seq!['T' as u8] + rest));
    law_tokens_of_parts(mark, rest);
    law_tokens_of_parts(head, mark + rest);
    law_tokens_of_parts(head, mark);
    assert(tokens_of(head + text(" T ") + tail) =~= tokens_of(head) + seq![text("T")] + tokens_of(
        rest,
    ));
    assert(tokens_of(head + text(" T")) =~= tokens_of(head) + seq![text("T")]);
    law_nothing_after_truncation(tokens_of(head), tokens_of(rest));
}

/// A number followed by one of two letters, `a` or `b`, and nothing else.
pub open spec fn is_number_and_letter(s: Seq<u8>, a: u8, b: u8) -> bool {
    s.len() >= 2 && is_number(s.drop_last()) && (s.last() == a || s.last() == b)
}

/// A latitude: a number and `N` or `S`.
pub open spec fn is_latitude(s: Seq<u8>) -> bool {
    is_number_and_letter(s, 'N' as u8, 'S' as u8)
}

/// A longitude: a number and `E` or `W`.
pub open spec fn is_longitude(s: Seq<u8>) -> bool {
    is_number_and_letter(s, 'E' as u8, 'W' as u8)
}

/// In a number followed by `a` or `b`, that letter is the first `a`, or
/// else the first `b`; in text without these letters there is none.
proof fn lemma_mark_of_number_and_letter(s: Seq<u8>, a: u8, b: u8)
    requires
        !is_digit(a),
        !is_digit(b),
    ensures
        is_number_and_letter(s, a, b) ==> super::grammar::first_mark(s, a, b) == Some(
            s.len() - 1,
        ),
        (forall|j: int| 0 <= j < s.len() ==> #[trigger] s[j] != a && s[j] != b)
            ==> super::grammar::first_mark(s, a, b).is_none(),
{
    if is_number_and_letter(s, a, b) {
        let n = s.len() as int;
        assert forall|j: int| 0 <= j < n - 1 implies #[trigger] s[j] != a && s[j] != b by {
            assert(is_digit(s.drop_last()[j]));
        }
        if s[n - 1] == a {
            lemma_first_index_found(s, a, n - 1);
        } else {
            lemma_first_index_absent(s, a);
            lemma_first_index_found(s, b, n - 1);
        }
    }
    if forall|j: int| 0 <= j < s.len() ==> #[trigger] s[j] != a && s[j] != b {
        lemma_first_index_absent(s, a);
        lemma_first_index_absent(s, b);
    }
}

/// Where a mark stands, one of its two letters stands, and neither of them
/// stands before.
proof fn lemma_mark_is_first(s: Seq<u8>, a: u8, b: u8)
    ensures
        match super::grammar::first_mark(s, a, b) {
            Some(i) => {
                &&& 0 <= i < s.len()
                &&& s[i] == a || s[i] == b
                &&& forall|j: int| 0 <= j < i ==> #[trigger] s[j] != s[i]
            },
            None => forall|j: int| 0 <= j < s.len() ==> #[trigger] s[j] != a && s[j] != b,
        },
{
    match first_index(s, a) {
        Some(i) => {
            assert(occurs_first_at(s, a, i));
        },
        None => {
            assert forall|j: int| 0 <= j < s.len() implies #[trigger] s[j] != a by {
                if s[j] == a {
                    lemma_some_occurrence_is_first(s, a, j);
                }
            }
            match first_index(s, b) {
                Some(i) => {
                    assert(occurs_first_at(s, b, i));
                },
                None => {
                    assert forall|j: int| 0 <= j < s.len() implies #[trigger] s[j] != b by {
                        if s[j] == b {
                            lemma_some_occurrence_is_first(s, b, j);
                        }
                    }
                },
            }
        },
    }
}

/// A byte that occurs has a first occurrence.
proof fn lemma_some_occurrence_is_first(s: Seq<u8>, needle: u8, j: int)
    requires
        0 <= j < s.len(),
        s[j] == needle,
    ensures
        exists|i: int| occurs_first_at(s, needle, i),
    decreases j,
{
    if exists|k: int| 0 <= k < j && s[k] == needle {
        let k = choose|k: int| 0 <= k < j && s[k] == needle;
        lemma_some_occurrence_is_first(s, needle, k);
    } else {
        assert(occurs_first_at(s, needle, j));
    }
}

/// The forms of a coordinate: a token of at least four bytes that is a
/// latitude, a longitude, or a latitude followed by a longitude.
pub proof fn law_coordinate_forms(t: Seq<u8>)
    ensures
        is_coordinate(t) <==> t.len() >= 4 && (is_latitude(t) || is_longitude(t) || exists|
            k: int,
        |
            0 < k < t.len() && is_latitude(#[trigger] t.take(k)) && is_longitude(t.skip(k))),
{
    let n = t.len() as int;
    let (north, south, east, west) = ('N' as u8, 'S' as u8, 'E' as u8, 'W' as u8);
    lemma_mark_is_first(t, north, south);
    lemma_mark_is_first(t, east, west);
    if is_coordinate(t) {
        match (latitude_mark(t), longitude_mark(t)) {
            (Some(p), Some(q)) => {
                let lat = t.take(p + 1);
                let lon = t.skip(p + 1);
                assert(lat.drop_last() =~= t.subrange(0, p));
                assert(lon.drop_last() =~= t.subrange(p + 1, q));
                assert(lat.last() == t[p]);
                assert(lon.last() == t[q]);
                assert(is_latitude(t.take(p + 1)) && is_longitude(t.skip(p + 1)));
            },
            (Some(p), None) => {
                assert(t.drop_last() =~= t.subrange(0, p));
            },
            (None, Some(q)) => {
                assert(t.drop_last() =~= t.subrange(0, q));
            },
            (None, None) => {},
        }
    }
    if n >= 4 && is_latitude(t) {
        lemma_mark_of_number_and_letter(t, north, south);
        assert forall|j: int| 0 <= j < n implies #[trigger] t[j] != east && t[j] != west by {
            if j < n - 1 {
                assert(is_digit(t.drop_last()[j]));
            }
        }
        lemma_mark_of_number_and_letter(t, east, west);
        assert(t.subrange(0, n - 1) =~= t.drop_last());
    }
    if n >= 4 && is_longitude(t) {
        lemma_mark_of_number_and_letter(t, east, west);
        assert forall|j: int| 0 <= j < n implies #[trigger] t[j] != north && t[j] != south by {
            if j < n - 1 {
                assert(is_digit(t.drop_last()[j]));
            }
        }
        lemma_mark_of_number_and_letter(t, north, south);
        assert(t.subrange(0, n - 1) =~= t.drop_last());
    }
    if n >= 4 && exists|k: int|
        0 < k < t.len() && is_latitude(#[trigger] t.take(k)) && is_longitude(t.skip(k)) {
        let k = choose|k: int|
            0 < k < t.len() && is_latitude(#[trigger] t.take(k)) && is_longitude(t.skip(k));
        let lat = t.take(k);
        let lon = t.skip(k);
        let p = k - 1;
        assert(lat.last() == t[p]);
        assert(lon.last() == t[n - 1]);
        assert forall|j: int| 0 <= j < p implies is_digit(#[trigger] t[j]) by {
            assert(is_digit(lat.drop_last()[j]));
        }
        assert forall|j: int| k <= j < n - 1 implies is_digit(#[trigger] t[j]) by {
            assert(is_digit(lon.drop_last()[j - k]));
        }
        // The latitude letter is the first of its kind, and so is the
        // longitude letter.
        if t[p] == north {
            lemma_first_index_found(t, north, p);
        } else {
            assert forall|j: int| 0 <= j < n implies #[trigger] t[j] != north by {}
            lemma_first_index_absent(t, north);
            lemma_first_index_found(t, south, p);
        }
        if t[n - 1] == east {
            lemma_first_index_found(t, east, n - 1);
        } else {
            assert forall|j: int| 0 <= j < n implies #[trigger] t[j] != east by {}
            lemma_first_index_absent(t, east);
            lemma_first_index_found(t, west, n - 1);
        }
        assert(t.subrange(0, p) =~= lat.drop_last());
        assert(t.subrange(p + 1, n - 1) =~= lon.drop_last());
    }
}

/// A point that a token spells is one that a route can hold.
pub proof fn law_points_are_well_formed(t: Seq<u8>)
    ensures
        match parse_point(t) {
            Some(p) => p.well_formed(),
            None => true,
        },
{
    let n = t.len() as int;
    if parse_bearing_distance(t).is_some() {
        let distance = t.subrange(n - 3, n);
        assert forall|i: int| 0 <= i < 3 implies is_digit(#[trigger] distance[i]) by {
            assert(is_digit(t.subrange(n - 6, n)[i + 3]));
        }
        lemma_decimal_value_bound(distance);
        assert(parse_reference_point(t.subrange(0, n - 6)).is_some());
    }
    if n == 4 && all_upper(t) {
    }
}

/// Every point among the elements of a route is one that a route can hold:
/// where the pass stands before token `i`.
proof fn lemma_route_points_from(
    tokens: Seq<Seq<u8>>,
    i: int,
    first_point_parsed: bool,
    out: Seq<ElementView>,
)
    requires
        forall|j: int|
            0 <= j < out.len() ==> (#[trigger] out[j] matches ElementView::Point(p)
                ==> p.well_formed()),
    ensures
        forall|j: int|
            0 <= j < elements_from(tokens, i, first_point_parsed, out).len() ==> (
            #[trigger] elements_from(tokens, i, first_point_parsed, out)[j] matches ElementView::Point(
                p,
            ) ==> p.well_formed()),
    decreases tokens.len() - i,
{
    if i < 0 || i >= tokens.len() || tokens[i] == text("T") {
    } else {
        let verdict = classify(
            tokens[i],
            i == tokens.len() - 1,
            first_point_parsed,
            ends_with_direct(out),
        );
        match verdict {
            Some(e) => {
                assert(e matches ElementView::Point(p) ==> p.well_formed()) by {
                    reveal(classify);
                    law_points_are_well_formed(tokens[i]);
                }
                let next = out.push(e);
                assert forall|j: int| 0 <= j < next.len() implies (#[trigger] next[j] matches ElementView::Point(
                    p,
                ) ==> p.well_formed()) by {
                    if j < out.len() {
                        assert(next[j] == out[j]);
                    }
                }
                lemma_route_points_from(
                    tokens,
                    i + 1,
                    first_point_parsed || claims_first_point(e),
                    next,
                );
            },
            None => {
                lemma_route_points_from(tokens, i + 1, first_point_parsed, out);
            },
        }
    }
}

/// Every point among the elements of a route is one that a route can hold.
pub proof fn law_route_points_are_well_formed(tokens: Seq<Seq<u8>>)
    ensures
        forall|j: int|
            0 <= j < elements_of(tokens).len() ==> (#[trigger] elements_of(
                tokens,
            )[j] matches ElementView::Point(p) ==> p.well_formed()),
{
    lemma_route_points_from(tokens, 0, false, Seq::empty());
}

/// One of the elements claims the first point of the route.
pub open spec fn claimed(out: Seq<ElementView>) -> bool {
    exists|i: int| 0 <= i < out.len() && claims_first_point(#[trigger] out[i])
}

/// The element is a departure with a designator of its own.
pub open spec fn is_named_departure(e: ElementView) -> bool {
    e matches ElementView::Connector(ConnectorView::Sid(name)) && name != text("SID")
}

/// A procedure designator is no change of speed and level, and none of the
/// words that the pass knows by name.
pub proof fn lemma_procedure_is_no_keyword(t: Seq<u8>)
    requires
        is_procedure(t),
    ensures
        parse_modifier(t).is_none(),
        t != text("/"),
        t != text("T"),
        t != text("DCT"),
        t != text("VFR"),
        t != text("IFR"),
        t != text("OAT"),
        t != text("GAT"),
        t != text("IFPSTOP"),
        t != text("IFPSTART"),
        t != text("SID"),
        t != text("STAR"),
{
    lemma_text_of_keywords();
    let n = t.len() as int;
    // Three letters come first, and a digit stands in one of the last two places.
    assert(is_upper(t[0]) && is_upper(t[1]) && is_upper(t[2]) && 5 <= n <= 8 && (is_digit(
        t[n - 1],
    ) || is_digit(t[n - 2]))) by {
        lemma_shape_ends(t, 3, 1, 1);
        lemma_shape_ends(t, 3, 2, 1);
        lemma_shape_ends(t, 5, 1, 0);
        lemma_shape_ends(t, 5, 2, 0);
        lemma_shape_ends(t, 4, 1, 1);
        lemma_shape_ends(t, 5, 1, 1);
        lemma_shape_ends(t, 6, 1, 1);
        lemma_shape_ends(t, 5, 2, 1);
    }
    assert(t != text("IFPSTOP")) by {
        if t == text("IFPSTOP") {
            assert(t[5] == 'O' as u8 && t[6] == 'P' as u8);
        }
    }
    assert(t != text("IFPSTART")) by {
        if t == text("IFPSTART") {
            assert(t[6] == 'R' as u8 && t[7] == 'T' as u8);
        }
    }
    assert(without_plus(t) == t) by {
        if t.subrange(n - 4, n) == text("PLUS") {
            assert(t.subrange(n - 4, n)[2] == t[n - 2]);
            assert(t.subrange(n - 4, n)[3] == t[n - 1]);
        }
    }
    assert(parse_modifier(t).is_none()) by {
        assert(t.subrange(0, 4)[1] == t[1]);
        assert(t.subrange(0, 5)[1] == t[1]);
        assert(t.subrange(0, 4).subrange(1, 4)[0] == t[1]);
        assert(t.subrange(0, 5).subrange(1, 5)[0] == t[1]);
        assert(t.subrange(1, 5)[0] == t[1]);
        assert(t.subrange(1, 4)[0] == t[1]);
        assert(parse_altitude(t).is_none());
    }
}

/// A token of a shape with at least three letters in front, a digit, and at
/// most one letter behind begins with three letters and has a digit in one
/// of its last two places.
proof fn lemma_shape_ends(t: Seq<u8>, letters: int, digits: int, suffix: int)
    requires
        3 <= letters,
        1 <= digits,
        0 <= suffix <= 1,
    ensures
        has_shape(t, letters, digits, suffix) ==> {
            &&& t.len() == letters + digits + suffix
            &&& is_upper(t[0])
            &&& is_upper(t[1])
            &&& is_upper(t[2])
            &&& is_digit(t[t.len() - 1]) || is_digit(t[t.len() - 2])
        },
{
    if has_shape(t, letters, digits, suffix) {
        let front = t.subrange(0, letters);
        assert(is_upper(front[0]) && is_upper(front[1]) && is_upper(front[2]));
        let number = t.subrange(letters, letters + digits);
        assert(is_digit(number[digits - 1]));
        assert(number[digits - 1] == t[letters + digits - 1]);
    }
}

/// A departure with a designator of its own is emitted only while nothing
/// has claimed the first point.
pub proof fn lemma_named_departure_is_first(
    t: Seq<u8>,
    is_last: bool,
    first_point_parsed: bool,
    after_direct: bool,
)
    ensures
        match classify(t, is_last, first_point_parsed, after_direct) {
            Some(e) => is_named_departure(e) ==> !first_point_parsed,
            None => true,
        },
{
    reveal(classify);
}

/// The pass only adds to what it has emitted.
pub proof fn lemma_pass_extends(
    tokens: Seq<Seq<u8>>,
    i: int,
    first_point_parsed: bool,
    out: Seq<ElementView>,
)
    ensures
        out.len() <= elements_from(tokens, i, first_point_parsed, out).len(),
        elements_from(tokens, i, first_point_parsed, out).take(out.len() as int) == out,
    decreases tokens.len() - i,
{
    let r = elements_from(tokens, i, first_point_parsed, out);
    if i < 0 || i >= tokens.len() || tokens[i] == text("T") {
        assert(r.take(out.len() as int) =~= out);
    } else {
        match classify(tokens[i], i == tokens.len() - 1, first_point_parsed, ends_with_direct(out)) {
            Some(e) => {
                lemma_pass_extends(
                    tokens,
                    i + 1,
                    first_point_parsed || claims_first_point(e),
                    out.push(e),
                );
                assert(r.take(out.len() as int) =~= r.take(out.len() as int + 1).take(out.len() as int));
                assert(out.push(e).take(out.len() as int) =~= out);
            },
            None => {
                lemma_pass_extends(tokens, i + 1, first_point_parsed, out);
            },
        }
    }
}

/// Before a departure with a designator of its own, nothing claims the
/// first point: where the pass stands before token `i`.
proof fn lemma_departure_comes_first_from(
    tokens: Seq<Seq<u8>>,
    i: int,
    first_point_parsed: bool,
    out: Seq<ElementView>,
    j: int,
)
    requires
        first_point_parsed == claimed(out),
        out.len() <= j < elements_from(tokens, i, first_point_parsed, out).len(),
        is_named_departure(elements_from(tokens, i, first_point_parsed, out)[j]),
    ensures
        !claimed(elements_from(tokens, i, first_point_parsed, out).take(j)),
    decreases tokens.len() - i,
{
    let r = elements_from(tokens, i, first_point_parsed, out);
    if i < 0 || i >= tokens.len() || tokens[i] == text("T") {
    } else {
        let verdict = classify(
            tokens[i],
            i == tokens.len() - 1,
            first_point_parsed,
            ends_with_direct(out),
        );
        lemma_named_departure_is_first(
            tokens[i],
            i == tokens.len() - 1,
            first_point_parsed,
            ends_with_direct(out),
        );
        match verdict {
            Some(e) => {
                let next = out.push(e);
                let claims = first_point_parsed || claims_first_point(e);
                assert(claims == claimed(next)) by {
                    if claimed(out) {
                        let k = choose|k: int|
                            0 <= k < out.len() && claims_first_point(#[trigger] out[k]);
                        assert(next[k] == out[k]);
                    }
                    if claims_first_point(e) {
                        assert(next[out.len() as int] == e);
                    }
                    if claimed(next) {
                        let k = choose|k: int|
                            0 <= k < next.len() && claims_first_point(#[trigger] next[k]);
                        if k < out.len() {
                            assert(next[k] == out[k]);
                        }
                    }
                }
                lemma_pass_extends(tokens, i + 1, claims, next);
                if j == out.len() {
                    assert(r.take(next.len() as int)[j] == e);
                    assert(r.take(j) =~= r.take(next.len() as int).take(j));
                    assert(next.take(j) =~= out);
                } else {
                    lemma_departure_comes_first_from(tokens, i + 1, claims, next, j);
                }
            },
            None => {
                lemma_departure_comes_first_from(tokens, i + 1, first_point_parsed, out, j);
            },
        }
    }
}

/// A departure with a designator of its own comes before every point, and
/// before every other departure and arrival: no element in front of it
/// claims the first point of the route.
pub proof fn law_departure_comes_first(tokens: Seq<Seq<u8>>, j: int)
    requires
        0 <= j < elements_of(tokens).len(),
        is_named_departure(elements_of(tokens)[j]),
    ensures
        forall|i: int| 0 <= i < j ==> !claims_first_point(#[trigger] elements_of(tokens)[i]),
{
    let r = elements_of(tokens);
    lemma_departure_comes_first_from(tokens, 0, false, Seq::empty(), j);
    assert forall|i: int| 0 <= i < j implies !claims_first_point(#[trigger] r[i]) by {
        assert(r.take(j)[i] == r[i]);
    }
}

/// The last token of a route without truncation, if it is a procedure
/// designator, gives the last element: where the pass stands before token
/// `i`.
proof fn lemma_last_procedure_from(
    tokens: Seq<Seq<u8>>,
    i: int,
    first_point_parsed: bool,
    out: Seq<ElementView>,
)
    requires
        0 <= i < tokens.len(),
        first_point_parsed == claimed(out),
        is_procedure(tokens.last()),
        forall|k: int| 0 <= k < tokens.len() ==> #[trigger] tokens[k] != text("T"),
    ensures
        ({
            let r = elements_from(tokens, i, first_point_parsed, out);
            &&& r.len() > 0
            &&& r.last() == ElementView::Connector(ConnectorView::Star(tokens.last()))
                || (r.last() == ElementView::Connector(ConnectorView::Sid(tokens.last()))
                && !claimed(r.drop_last()))
        }),
    decreases tokens.len() - i,
{
    let r = elements_from(tokens, i, first_point_parsed, out);
    let verdict = classify(
        tokens[i],
        i == tokens.len() - 1,
        first_point_parsed,
        ends_with_direct(out),
    );
    if i == tokens.len() - 1 {
        let t = tokens[i];
        lemma_procedure_is_no_keyword(t);
        assert(verdict == Some(
            ElementView::Connector(
                if first_point_parsed {
                    ConnectorView::Star(t)
                } else {
                    ConnectorView::Sid(t)
                },
            ),
        )) by {
            reveal(classify);
        }
        let e = verdict.unwrap();
        assert(r == out.push(e)) by {
            assert(elements_from(
                tokens,
                i + 1,
                first_point_parsed || claims_first_point(e),
                out.push(e),
            ) == out.push(e));
        }
        assert(r.drop_last() =~= out);
    } else {
        match verdict {
            Some(e) => {
                let next = out.push(e);
                let claims = first_point_parsed || claims_first_point(e);
                assert(claims == claimed(next)) by {
                    if claimed(out) {
                        let k = choose|k: int|
                            0 <= k < out.len() && claims_first_point(#[trigger] out[k]);
                        assert(next[k] == out[k]);
                    }
                    if claims_first_point(e) {
                        assert(next[out.len() as int] == e);
                    }
                    if claimed(next) {
                        let k = choose|k: int|
                            0 <= k < next.len() && claims_first_point(#[trigger] next[k]);
                        if k < out.len() {
                            assert(next[k] == out[k]);
                        }
                    }
                }
                lemma_last_procedure_from(tokens, i + 1, claims, next);
            },
            None => {
                lemma_last_procedure_from(tokens, i + 1, first_point_parsed, out);
            },
        }
    }
}

/// Where the last token of a route without truncation is a procedure
/// designator, the last element is that procedure: the arrival, or the
/// departure if nothing before it has claimed the first point.
pub proof fn law_last_procedure_is_arrival(tokens: Seq<Seq<u8>>)
    requires
        tokens.len() > 0,
        is_procedure(tokens.last()),
        forall|k: int| 0 <= k < tokens.len() ==> #[trigger] tokens[k] != text("T"),
    ensures
        ({
            let r = elements_of(tokens);
            &&& r.len() > 0
            &&& r.last() == ElementView::Connector(ConnectorView::Star(tokens.last()))
                || (r.last() == ElementView::Connector(ConnectorView::Sid(tokens.last()))
                && !claimed(r.drop_last()))
        }),
{
    lemma_last_procedure_from(tokens, 0, false, Seq::empty());
}

/// A level can stand alone: a token of at least four bytes that spells a
/// level, other than a metric altitude, is the modifier of that level
/// without a speed. A metric altitude is left out because it begins like a
/// Mach number, which is then read first.
pub proof fn law_level_alone_is_a_modifier(t: Seq<u8>)
    requires
        t.len() >= 4,
        parse_altitude(t).is_some(),
        t[0] != 'M' as u8,
    ensures
        parse_modifier(t) == Some(
            Modifier { speed: None, altitude: parse_altitude(t), cruise_climb: false },
        ),
{
    lemma_text_of_keywords();
    let n = t.len() as int;
    assert(t != text("VFR"));
    assert(is_digit(t[n - 1])) by {
        if n == 4 {
            assert(t.subrange(1, 4)[2] == t[3]);
        } else {
            assert(t.subrange(1, 5)[3] == t[4]);
        }
    }
    assert(without_plus(t) == t) by {
        if t.subrange(n - 4, n) == text("PLUS") {
            assert(t.subrange(n - 4, n)[3] == t[n - 1]);
        }
    }
    if n >= 5 {
        assert(t.subrange(0, 5)[0] == t[0]);
    }
}

/// The element is an arrival with a designator of its own.
pub open spec fn is_named_arrival(e: ElementView) -> bool {
    e matches ElementView::Connector(ConnectorView::Star(name)) && name != text("STAR")
}

/// An arrival with a designator of its own is emitted for the last token
/// only.
pub proof fn lemma_named_arrival_is_last(
    t: Seq<u8>,
    is_last: bool,
    first_point_parsed: bool,
    after_direct: bool,
)
    ensures
        match classify(t, is_last, first_point_parsed, after_direct) {
            Some(e) => is_named_arrival(e) ==> is_last,
            None => true,
        },
{
    reveal(classify);
}

/// After an arrival with a designator of its own nothing follows: where the
/// pass stands before token `i`.
proof fn lemma_arrival_comes_last_from(
    tokens: Seq<Seq<u8>>,
    i: int,
    first_point_parsed: bool,
    out: Seq<ElementView>,
    j: int,
)
    requires
        0 <= i,
        out.len() <= j < elements_from(tokens, i, first_point_parsed, out).len(),
        is_named_arrival(elements_from(tokens, i, first_point_parsed, out)[j]),
    ensures
        j == elements_from(tokens, i, first_point_parsed, out).len() - 1,
    decreases tokens.len() - i,
{
    let r = elements_from(tokens, i, first_point_parsed, out);
    if i >= tokens.len() || tokens[i] == text("T") {
    } else {
        let is_last = i == tokens.len() - 1;
        let verdict = classify(tokens[i], is_last, first_point_parsed, ends_with_direct(out));
        lemma_named_arrival_is_last(tokens[i], is_last, first_point_parsed, ends_with_direct(out));
        match verdict {
            Some(e) => {
                let next = out.push(e);
                let claims = first_point_parsed || claims_first_point(e);
                if is_last {
                    assert(elements_from(tokens, i + 1, claims, next) == next);
                } else {
                    lemma_pass_extends(tokens, i + 1, claims, next);
                    if j == out.len() {
                        assert(r.take(next.len() as int)[j] == next[j]);
                    } else {
                        lemma_arrival_comes_last_from(tokens, i + 1, claims, next, j);
                    }
                }
            },
            None => {
                if is_last {
                    assert(elements_from(tokens, i + 1, first_point_parsed, out) == out);
                } else {
                    lemma_arrival_comes_last_from(tokens, i + 1, first_point_parsed, out, j);
                }
            },
        }
    }
}

/// An arrival with a designator of its own is the last element of the
/// route: it is made of the last token, and nothing follows it.
pub proof fn law_arrival_comes_last(tokens: Seq<Seq<u8>>, j: int)
    requires
        0 <= j < elements_of(tokens).len(),
        is_named_arrival(elements_of(tokens)[j]),
    ensures
        j == elements_of(tokens).len() - 1,
{
    lemma_arrival_comes_last_from(tokens, 0, false, Seq::empty(), j);
}

} // verus!
