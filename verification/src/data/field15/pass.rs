//! From text to elements, as specification functions: how a route is cut
//! into tokens, what the pass makes of one token, and what it makes of all
//! of them.

use super::elements::{ConnectorView, ElementView, PointView};
use super::grammar::{
    is_airway, is_nat, is_procedure, is_pts, parse_modifier, parse_point, text,
};
use vstd::prelude::*;
use vstd::string::StringSliceAdditionalSpecFns;

verus! {

/// The bytes of each of the tokens.
pub open spec fn token_bytes(tokens: Seq<&str>) -> Seq<Seq<u8>> {
    tokens.map_values(|t: &str| t.spec_bytes())
}

/// White space between tokens: space, tab, line feed, carriage return.
pub open spec fn is_blank(b: u8) -> bool {
    b == ' ' as u8 || b == '\t' as u8 || b == '\n' as u8 || b == '\r' as u8
}

/// The slash, which ends a token and is a token itself.
pub open spec fn is_slash(b: u8) -> bool {
    b == '/' as u8
}

/// A byte that ends a token.
pub open spec fn is_delimiter(b: u8) -> bool {
    is_blank(b) || is_slash(b)
}

/// The length of the word that `s` begins with: its longest prefix without
/// a delimiter.
pub open spec fn word_len(s: Seq<u8>) -> int
    decreases s.len(),
{
    if s.len() == 0 || is_delimiter(s[0]) {
        0
    } else {
        1 + word_len(s.drop_first())
    }
}

/// The tokens of a route, in the order of the text: its words, and one
/// token for each slash.
pub open spec fn tokens_of(s: Seq<u8>) -> Seq<Seq<u8>>
    decreases s.len(),
{
    if s.len() == 0 {
        Seq::empty()
    } else if is_blank(s[0]) {
        tokens_of(s.drop_first())
    } else if is_slash(s[0]) {
        seq![s.subrange(0, 1)] + tokens_of(s.drop_first())
    } else if 0 < word_len(s) <= s.len() {
        seq![s.subrange(0, word_len(s))] + tokens_of(s.subrange(word_len(s), s.len() as int))
    } else {
        Seq::empty()
    }
}

/// The element, if any, that the pass emits for the token `t`.
///
/// `is_last` says that `t` is the last token of the route,
/// `first_point_parsed` that a point, a departure or an arrival has been
/// emitted before, and `after_direct` that the element emitted last is
/// `DCT`. The rules, of which the first that applies decides:
///
/// 1. a slash emits nothing;
/// 2. a change of speed and level is a modifier;
/// 3. `DCT`, `VFR`, `IFR`, `OAT`, `GAT`, `IFPSTOP` and `IFPSTART` are the
///    connectors of those names;
/// 4. `SID` and `STAR` are a departure and an arrival without a designator;
/// 5. a procedure designator is the departure if nothing has claimed the
///    first point yet;
/// 6. a procedure designator that is the last token is the arrival;
/// 7. after `DCT` the token is a point, or nothing;
/// 8. a North Atlantic or Pacific track is a track;
/// 9. an airway designator is an airway;
/// 10. anything else is a point, or nothing.
///
/// The truncation mark `T` is not handled here: the pass stops before it.
#[verifier::opaque]
pub open spec fn classify(
    t: Seq<u8>,
    is_last: bool,
    first_point_parsed: bool,
    after_direct: bool,
) -> Option<ElementView> {
    if t == text("/") {
        None
    } else if parse_modifier(t).is_some() {
        Some(ElementView::Modifier(parse_modifier(t).unwrap()))
    } else if t == text("DCT") {
        Some(ElementView::Connector(ConnectorView::Direct))
    } else if t == text("VFR") {
        Some(ElementView::Connector(ConnectorView::Vfr))
    } else if t == text("IFR") {
        Some(ElementView::Connector(ConnectorView::Ifr))
    } else if t == text("OAT") {
        Some(ElementView::Connector(ConnectorView::Oat))
    } else if t == text("GAT") {
        Some(ElementView::Connector(ConnectorView::Gat))
    } else if t == text("IFPSTOP") {
        Some(ElementView::Connector(ConnectorView::IfpStop))
    } else if t == text("IFPSTART") {
        Some(ElementView::Connector(ConnectorView::IfpStart))
    } else if t == text("SID") {
        Some(ElementView::Connector(ConnectorView::Sid(t)))
    } else if t == text("STAR") {
        Some(ElementView::Connector(ConnectorView::Star(t)))
    } else if !first_point_parsed && is_procedure(t) {
        Some(ElementView::Connector(ConnectorView::Sid(t)))
    } else if is_procedure(t) && is_last {
        Some(ElementView::Connector(ConnectorView::Star(t)))
    } else if after_direct {
        as_point(parse_point(t))
    } else if is_nat(t) {
        Some(ElementView::Connector(ConnectorView::Nat(t)))
    } else if is_pts(t) {
        Some(ElementView::Connector(ConnectorView::Pts(t)))
    } else if is_airway(t) {
        Some(ElementView::Connector(ConnectorView::Airway(t)))
    } else {
        as_point(parse_point(t))
    }
}

/// A point, if there is one, as an element.
pub open spec fn as_point(p: Option<PointView>) -> Option<ElementView> {
    match p {
        Some(p) => Some(ElementView::Point(p)),
        None => None,
    }
}

/// The element claims the first point of the route: it is a point, a
/// departure or an arrival.
pub open spec fn claims_first_point(e: ElementView) -> bool {
    match e {
        ElementView::Point(_) => true,
        ElementView::Connector(c) => c is Sid || c is Star,
        ElementView::Modifier(_) => false,
    }
}

/// The element emitted last is `DCT`.
pub open spec fn ends_with_direct(out: Seq<ElementView>) -> bool {
    out.len() > 0 && out.last() == ElementView::Connector(ConnectorView::Direct)
}

/// What the pass has emitted when it is done, where it stands before token
/// `i` with `out` emitted so far. It stops at the end of the tokens or at
/// the first `T`.
pub open spec fn elements_from(
    tokens: Seq<Seq<u8>>,
    i: int,
    first_point_parsed: bool,
    out: Seq<ElementView>,
) -> Seq<ElementView>
    decreases tokens.len() - i,
{
    if i < 0 || i >= tokens.len() || tokens[i] == text("T") {
        out
    } else {
        match classify(
            tokens[i],
            i == tokens.len() - 1,
            first_point_parsed,
            ends_with_direct(out),
        ) {
            Some(e) => elements_from(
                tokens,
                i + 1,
                first_point_parsed || claims_first_point(e),
                out.push(e),
            ),
            None => elements_from(tokens, i + 1, first_point_parsed, out),
        }
    }
}

/// The elements of a sequence of tokens.
pub open spec fn elements_of(tokens: Seq<Seq<u8>>) -> Seq<ElementView> {
    elements_from(tokens, 0, false, Seq::empty())
}

/// The elements of a route.
pub open spec fn route_elements(route: Seq<u8>) -> Seq<ElementView> {
    elements_of(tokens_of(route))
}

/// A word is as long as the bytes before its first delimiter.
pub proof fn lemma_word_len(s: Seq<u8>, k: int)
    requires
        0 <= k <= s.len(),
        forall|i: int| 0 <= i < k ==> !is_delimiter(#[trigger] s[i]),
        k == s.len() || is_delimiter(s[k]),
    ensures
        word_len(s) == k,
    decreases k,
{
    if k > 0 {
        let rest = s.drop_first();
        assert forall|i: int| 0 <= i < k - 1 implies !is_delimiter(#[trigger] rest[i]) by {
            assert(rest[i] == s[i + 1]);
        }
        lemma_word_len(rest, k - 1);
    }
}

/// A word is not longer than the text, and holds no delimiter.
pub proof fn lemma_word_len_bounds(s: Seq<u8>)
    ensures
        0 <= word_len(s) <= s.len(),
        forall|i: int| 0 <= i < word_len(s) ==> !is_delimiter(#[trigger] s[i]),
        s.len() > 0 && !is_delimiter(s[0]) ==> word_len(s) > 0,
    decreases s.len(),
{
    if s.len() > 0 && !is_delimiter(s[0]) {
        let rest = s.drop_first();
        lemma_word_len_bounds(rest);
        assert forall|i: int| 0 <= i < word_len(s) implies !is_delimiter(#[trigger] s[i]) by {
            if i > 0 {
                assert(s[i] == rest[i - 1]);
            }
        }
    }
}

/// What a token looks like: a slash, or a word that is not empty and holds
/// no delimiter.
pub open spec fn is_token(t: Seq<u8>) -> bool {
    ||| t.len() == 1 && is_slash(t[0])
    ||| t.len() > 0 && forall|i: int| 0 <= i < t.len() ==> !is_delimiter(#[trigger] t[i])
}

/// Every token of a route looks like a token; none is empty.
pub proof fn law_tokens_are_words(s: Seq<u8>)
    ensures
        forall|k: int| 0 <= k < tokens_of(s).len() ==> is_token(#[trigger] tokens_of(s)[k]),
    decreases s.len(),
{
    if s.len() == 0 {
        assert(tokens_of(s).len() == 0);
    } else if is_blank(s[0]) {
        law_tokens_are_words(s.drop_first());
        assert(tokens_of(s) == tokens_of(s.drop_first()));
    } else if is_slash(s[0]) {
        let rest = tokens_of(s.drop_first());
        law_tokens_are_words(s.drop_first());
        assert forall|k: int| 0 <= k < tokens_of(s).len() implies is_token(
            #[trigger] tokens_of(s)[k],
        ) by {
            if k > 0 {
                assert(tokens_of(s)[k] == rest[k - 1]);
            }
        }
    } else {
        let n = word_len(s);
        lemma_word_len_bounds(s);
        let rest = tokens_of(s.subrange(n, s.len() as int));
        law_tokens_are_words(s.subrange(n, s.len() as int));
        assert forall|k: int| 0 <= k < tokens_of(s).len() implies is_token(
            #[trigger] tokens_of(s)[k],
        ) by {
            if k > 0 {
                assert(tokens_of(s)[k] == rest[k - 1]);
            } else {
                let t = s.subrange(0, n);
                assert(tokens_of(s)[0] == t);
                assert forall|i: int| 0 <= i < t.len() implies !is_delimiter(#[trigger] t[i]) by {
                    assert(t[i] == s[i]);
                }
            }
        }
    }
}

} // verus!
