//! The parser: executable counterparts of the grammar, the tokenizer and
//! the pass that turns tokens into route elements.

use super::ascii::{
    all_digits, any_digit, begins_with, byte_is_digit, byte_is_upper, find_byte, finishes_with,
    is_digit, range_all_digits, range_all_upper, range_decimal, same_bytes,
};
use super::elements::{
    element_views, optional_element_view, optional_point_view, Altitude, Angle, Connector,
    ConnectorView, Coordinate, ElementView, Field15Element, Modifier, Point, Speed,
};
use super::grammar;
use super::pass;
use super::text::{lemma_ascii_byte_is_character, str_slice};
use vstd::prelude::*;
use vstd::slice::slice_subrange;
use vstd::string::StringSliceAdditionalSpecFns;

verus! {

/// Whether `b` is a letter that names a class of ATS route.
fn byte_is_route_letter(b: u8) -> (r: bool)
    ensures
        r == grammar::is_route_letter(b),
{
    b == 'A' as u8 || b == 'B' as u8 || b == 'G' as u8 || b == 'H' as u8 || b == 'J' as u8 || b
        == 'L' as u8 || b == 'M' as u8 || b == 'N' as u8 || b == 'P' as u8 || b == 'Q' as u8 || b
        == 'R' as u8 || b == 'T' as u8 || b == 'V' as u8 || b == 'W' as u8 || b == 'Y' as u8 || b
        == 'Z' as u8
}

/// Whether `b` is so many letters, then so many digits, then so many
/// letters.
fn shaped(b: &[u8], letters: usize, digits: usize, suffix: usize) -> (r: bool)
    requires
        letters + digits + suffix <= 16,
    ensures
        r == grammar::has_shape(b@, letters as int, digits as int, suffix as int),
{
    b.len() == letters + digits + suffix && range_all_upper(b, 0, letters) && range_all_digits(
        b,
        letters,
        letters + digits,
    ) && range_all_upper(b, letters + digits, letters + digits + suffix)
}

/// Where the first `first` stands in `b`, or else the first `second`.
fn find_mark(b: &[u8], first: u8, second: u8) -> (r: Option<usize>)
    ensures
        match r {
            Some(i) => grammar::first_mark(b@, first, second) == Some(i as int) && i < b@.len()
                && (b@[i as int] == first || b@[i as int] == second),
            None => grammar::first_mark(b@, first, second).is_none(),
        },
{
    match find_byte(b, first) {
        Some(i) => Some(i),
        None => find_byte(b, second),
    }
}

/// Whether `b[from..to]` is a run of digits that is not empty.
fn number_in(b: &[u8], from: usize, to: usize) -> (r: bool)
    requires
        from <= to <= b@.len(),
    ensures
        r == grammar::is_number(b@.subrange(from as int, to as int)),
{
    from < to && range_all_digits(b, from, to)
}

/// Whether `b` has the form of a coordinate.
fn coordinate_form(b: &[u8]) -> (r: bool)
    ensures
        r == grammar::is_coordinate(b@),
{
    let n = b.len();
    if n < 4 {
        return false;
    }
    match (find_mark(b, 'N' as u8, 'S' as u8), find_mark(b, 'E' as u8, 'W' as u8)) {
        (Some(p), Some(q)) => p < q && number_in(b, 0, p) && number_in(b, p + 1, q) && q == n - 1,
        (Some(p), None) => number_in(b, 0, p) && p == n - 1,
        (None, Some(q)) => number_in(b, 0, q) && q == n - 1,
        (None, None) => false,
    }
}

/// The angle that the field `b[from..to]` spells, with `width` digits of
/// degrees.
fn angle_in(b: &[u8], from: usize, to: usize, width: usize, negative: bool) -> (r: Option<Angle>)
    requires
        from <= to <= b@.len(),
        width == 2 || width == 3,
    ensures
        r == grammar::parse_angle(b@.subrange(from as int, to as int), width as int, negative),
{
    let ghost field = b@.subrange(from as int, to as int);
    if to - from == width {
        match range_decimal(b, from, to) {
            Some(degrees) => Some(Angle { negative, degrees, minutes: 0 }),
            None => None,
        }
    } else if to - from == width + 2 {
        proof {
            assert(field.subrange(0, width as int) =~= b@.subrange(from as int, from + width));
            assert(field.subrange(width as int, width + 2) =~= b@.subrange(from + width, to as int));
            if all_digits(field) {
                assert forall|i: int| 0 <= i < width implies is_digit(
                    #[trigger] field.subrange(0, width as int)[i],
                ) by {
                    assert(is_digit(field[i]));
                }
                assert forall|i: int| 0 <= i < 2 implies is_digit(
                    #[trigger] field.subrange(width as int, width + 2)[i],
                ) by {
                    assert(is_digit(field[width + i]));
                }
            }
            if all_digits(field.subrange(0, width as int)) && all_digits(
                field.subrange(width as int, width + 2),
            ) {
                assert forall|i: int| 0 <= i < field.len() implies is_digit(#[trigger] field[i]) by {
                    if i < width {
                        assert(field[i] == field.subrange(0, width as int)[i]);
                    } else {
                        assert(field[i] == field.subrange(width as int, width + 2)[i - width]);
                    }
                }
            }
        }
        match (range_decimal(b, from, from + width), range_decimal(b, from + width, to)) {
            (Some(degrees), Some(minutes)) => Some(Angle { negative, degrees, minutes }),
            _ => None,
        }
    } else {
        None
    }
}

/// The position that `b` spells, if any.
fn coordinate_in(b: &[u8]) -> (r: Option<Coordinate>)
    ensures
        r == grammar::parse_coordinate(b@),
{
    match (find_mark(b, 'N' as u8, 'S' as u8), find_mark(b, 'E' as u8, 'W' as u8)) {
        (Some(p), Some(q)) => {
            match angle_in(b, 0, p, 2, b[p] == 'S' as u8) {
                Some(latitude) => {
                    if p < q {
                        match angle_in(b, p + 1, q, 3, b[q] == 'W' as u8) {
                            Some(longitude) => Some(Coordinate { latitude, longitude }),
                            None => None,
                        }
                    } else {
                        None
                    }
                },
                None => None,
            }
        },
        _ => None,
    }
}

/// The speed that `b` spells, if any.
fn speed_in(b: &[u8]) -> (r: Option<Speed>)
    ensures
        r == grammar::parse_speed(b@),
{
    let n = b.len();
    if n == 0 {
        return None;
    }
    let unit = b[0];
    if n == 5 && unit == 'N' as u8 {
        match range_decimal(b, 1, 5) {
            Some(v) => Some(Speed::Knots(v)),
            None => None,
        }
    } else if n == 4 && unit == 'M' as u8 {
        match range_decimal(b, 1, 4) {
            Some(v) => Some(Speed::Mach(v)),
            None => None,
        }
    } else if n == 5 && unit == 'K' as u8 {
        match range_decimal(b, 1, 5) {
            Some(v) => Some(Speed::KilometersPerHour(v)),
            None => None,
        }
    } else {
        None
    }
}

/// The level that `b` spells, if any.
fn altitude_in(b: &[u8]) -> (r: Option<Altitude>)
    ensures
        r == grammar::parse_altitude(b@),
{
    if same_bytes(b, "VFR".as_bytes()) {
        return Some(Altitude::Vfr);
    }
    let n = b.len();
    if n == 0 {
        return None;
    }
    let unit = b[0];
    if n == 4 && unit == 'F' as u8 {
        match range_decimal(b, 1, 4) {
            Some(v) => Some(Altitude::FlightLevel(v)),
            None => None,
        }
    } else if n == 5 && unit == 'S' as u8 {
        match range_decimal(b, 1, 5) {
            Some(v) => Some(Altitude::MetricLevel(v)),
            None => None,
        }
    } else if n == 5 && unit == 'A' as u8 {
        match range_decimal(b, 1, 5) {
            Some(v) => Some(Altitude::Altitude(v)),
            None => None,
        }
    } else if n == 5 && unit == 'M' as u8 {
        match range_decimal(b, 1, 5) {
            Some(v) => Some(Altitude::MetricAltitude(v)),
            None => None,
        }
    } else {
        None
    }
}

/// Whether the element is `DCT`.
fn is_direct(e: &Field15Element) -> (r: bool)
    ensures
        r == (e@ == ElementView::Connector(ConnectorView::Direct)),
{
    match e {
        Field15Element::Connector(Connector::Direct) => true,
        _ => false,
    }
}

/// Whether the element claims the first point of the route.
fn claims_first_point(e: &Field15Element) -> (r: bool)
    ensures
        r == pass::claims_first_point(e@),
{
    match e {
        Field15Element::Point(_) => true,
        Field15Element::Connector(Connector::Sid(_)) => true,
        Field15Element::Connector(Connector::Star(_)) => true,
        _ => false,
    }
}

/// A point, if there is one, as an element.
fn point_element(p: Option<Point>) -> (r: Option<Field15Element>)
    ensures
        optional_element_view(r) == pass::as_point(optional_point_view(p)),
{
    match p {
        Some(p) => Some(Field15Element::Point(p)),
        None => None,
    }
}

/// Parser for ICAO Field 15 route strings.
pub struct Field15Parser;

impl Field15Parser {
    /// Whether `token` is a North Atlantic track.
    pub fn is_nat(token: &str) -> (r: bool)
        ensures
            r == grammar::is_nat(token.spec_bytes()),
    {
        let b = token.as_bytes();
        let n = b.len();
        (n == 4 || n == 5) && begins_with(b, "NAT".as_bytes()) && byte_is_upper(b[3]) && (n == 4
            || byte_is_digit(b[4]))
    }

    /// Whether `token` is a Pacific track.
    pub fn is_pts(token: &str) -> (r: bool)
        ensures
            r == grammar::is_pts(token.spec_bytes()),
    {
        let b = token.as_bytes();
        b.len() == 4 && begins_with(b, "PTS".as_bytes()) && (byte_is_digit(b[3]) || byte_is_upper(
            b[3],
        ))
    }

    /// Whether `token` is a departure or arrival procedure designator.
    pub fn is_procedure(token: &str) -> (r: bool)
        ensures
            r == grammar::is_procedure(token.spec_bytes()),
    {
        let b = token.as_bytes();
        shaped(b, 3, 1, 1) || shaped(b, 3, 2, 1) || shaped(b, 5, 1, 0) || shaped(b, 5, 2, 0)
            || shaped(b, 4, 1, 1) || shaped(b, 5, 1, 1) || shaped(b, 6, 1, 1) || shaped(
            b,
            5,
            2,
            1,
        )
    }

    /// Whether `token` is an airway designator.
    pub fn is_airway(token: &str) -> (r: bool)
        ensures
            r == grammar::is_airway(token.spec_bytes()),
    {
        let b = token.as_bytes();
        let n = b.len();
        if n < 2 || n > 7 {
            return false;
        }
        if Self::is_nat(token) || Self::is_pts(token) {
            return false;
        }
        if !any_digit(b) {
            return false;
        }
        byte_is_route_letter(b[0]) || (b[0] == 'U' as u8 && byte_is_route_letter(b[1]))
    }

    /// Whether `token` has the form of a coordinate.
    pub fn is_coordinate(token: &str) -> (r: bool)
        ensures
            r == grammar::is_coordinate(token.spec_bytes()),
    {
        coordinate_form(token.as_bytes())
    }

    /// The speed that `s` spells, if any.
    pub fn parse_speed(s: &str) -> (r: Option<Speed>)
        ensures
            r == grammar::parse_speed(s.spec_bytes()),
    {
        speed_in(s.as_bytes())
    }

    /// The level that `s` spells, if any.
    pub fn parse_altitude(s: &str) -> (r: Option<Altitude>)
        ensures
            r == grammar::parse_altitude(s.spec_bytes()),
    {
        altitude_in(s.as_bytes())
    }

    /// The position that `token` spells, if any.
    pub fn parse_coordinate(token: &str) -> (r: Option<Coordinate>)
        ensures
            r == grammar::parse_coordinate(token.spec_bytes()),
    {
        coordinate_in(token.as_bytes())
    }

    /// The change of speed and level that `token` spells, if any.
    pub fn parse_modifier(token: &str) -> (r: Option<Modifier>)
        ensures
            r == grammar::parse_modifier(token.spec_bytes()),
    {
        let b = token.as_bytes();
        if b.len() < 4 {
            return None;
        }
        proof {
            grammar::lemma_text_of_keywords();
        }
        let cruise_climb = finishes_with(b, "PLUS".as_bytes());
        let base = if cruise_climb {
            slice_subrange(b, 0, b.len() - 4)
        } else {
            b
        };
        let width: usize = if base.len() > 0 && base[0] == 'M' as u8 {
            4
        } else {
            5
        };
        if base.len() < 4 {
            return None;
        }
        let speed = if base.len() >= width {
            speed_in(slice_subrange(base, 0, width))
        } else {
            None
        };
        let altitude = if speed.is_some() {
            altitude_in(slice_subrange(base, width, base.len()))
        } else {
            altitude_in(base)
        };
        if altitude.is_some() {
            Some(Modifier { speed, altitude, cruise_climb })
        } else {
            None
        }
    }

    /// The point that `token` spells, if any.
    pub fn parse_point(token: &str) -> (r: Option<Point>)
        ensures
            optional_point_view(r) == grammar::parse_point(token.spec_bytes()),
    {
        let b = token.as_bytes();
        let n = b.len();
        if n == 0 {
            return None;
        }
        if coordinate_form(b) {
            return match coordinate_in(b) {
                Some(c) => Some(Point::Coordinate(c)),
                None => None,
            };
        }
        if n > 6 && range_all_digits(b, n - 6, n) {
            proof {
                let digits = b@.subrange(n - 6, n as int);
                assert forall|i: int| 0 <= i < 3 implies is_digit(
                    #[trigger] b@.subrange(n - 6, n - 3)[i],
                ) by {
                    assert(is_digit(digits[i]));
                }
                assert forall|i: int| 0 <= i < 3 implies is_digit(
                    #[trigger] b@.subrange(n - 3, n as int)[i],
                ) by {
                    assert(is_digit(digits[i + 3]));
                }
            }
            proof {
                reveal_with_fuel(super::elements::point_view, 2);
            }
            let bearing = range_decimal(b, n - 6, n - 3).unwrap();
            let distance = range_decimal(b, n - 3, n).unwrap();
            if bearing <= 360 {
                let name = slice_subrange(b, 0, n - 6);
                if coordinate_form(name) {
                    if let Some(c) = coordinate_in(name) {
                        return Some(
                            Point::BearingDistance {
                                point: Box::new(Point::Coordinate(c)),
                                bearing,
                                distance,
                            },
                        );
                    }
                } else if range_all_upper(b, 0, n - 6) {
                    proof {
                        vstd::utf8::encode_utf8_valid_utf8(token@);
                        vstd::utf8::is_char_boundary_start_end_of_seq(b@);
                        assert(is_digit(b@.subrange(n - 6, n as int)[0]));
                        lemma_ascii_byte_is_character(b@, n - 6);
                    }
                    let name = str_slice(token, 0, n - 6);
                    return Some(
                        Point::BearingDistance {
                            point: Box::new(Point::Waypoint(name.to_owned())),
                            bearing,
                            distance,
                        },
                    );
                }
            }
        }
        if n == 4 && range_all_upper(b, 0, 4) {
            assert(b@.subrange(0, 4) =~= b@);
            return Some(Point::Aerodrome(token.to_owned()));
        }
        Some(Point::Waypoint(token.to_owned()))
    }

    /// The tokens of `route`, in the order of the text: its words, and one
    /// token for each slash. No token is empty.
    pub fn tokenize<'a>(route: &'a str) -> (tokens: Vec<&'a str>)
        ensures
            pass::token_bytes(tokens@) == pass::tokens_of(route.spec_bytes()),
            forall|k: int|
                0 <= k < tokens@.len() ==> pass::is_token(#[trigger] tokens@[k].spec_bytes()),
    {
        let b = route.as_bytes();
        let n = b.len();
        let mut tokens: Vec<&'a str> = Vec::new();
        let mut i: usize = 0;
        proof {
            vstd::utf8::encode_utf8_valid_utf8(route@);
            vstd::utf8::is_char_boundary_start_end_of_seq(b@);
            assert(b@.subrange(0, n as int) =~= b@);
            assert(pass::token_bytes(tokens@) =~= Seq::<Seq<u8>>::empty());
        }
        while i < n
            invariant
                n == b@.len(),
                b@ == route.spec_bytes(),
                vstd::utf8::valid_utf8(b@),
                i <= n,
                vstd::utf8::is_char_boundary(b@, i as int),
                pass::token_bytes(tokens@) + pass::tokens_of(b@.subrange(i as int, n as int))
                    == pass::tokens_of(b@),
            decreases n - i,
        {
            let ghost rest = b@.subrange(i as int, n as int);
            let ghost before = pass::token_bytes(tokens@);
            let c = b[i];
            proof {
                assert(rest[0] == c);
                assert(rest.drop_first() =~= b@.subrange(i + 1, n as int));
            }
            if c == ' ' as u8 || c == '\t' as u8 || c == '\n' as u8 || c == '\r' as u8 {
                proof {
                    lemma_ascii_byte_is_character(b@, i as int);
                }
                i += 1;
            } else if c == '/' as u8 {
                proof {
                    lemma_ascii_byte_is_character(b@, i as int);
                }
                let slash = str_slice(route, i, i + 1);
                tokens.push(slash);
                proof {
                    assert(rest.subrange(0, 1) =~= b@.subrange(i as int, i + 1));
                    assert(pass::token_bytes(tokens@) =~= before.push(slash.spec_bytes()));
                    assert(before.push(slash.spec_bytes()) + pass::tokens_of(rest.drop_first())
                        =~= before + pass::tokens_of(rest));
                }
                i += 1;
            } else {
                let start = i;
                let mut j: usize = i + 1;
                while j < n && !(b[j] == ' ' as u8 || b[j] == '\t' as u8 || b[j] == '\n' as u8
                    || b[j] == '\r' as u8 || b[j] == '/' as u8)
                    invariant
                        n == b@.len(),
                        start < j <= n,
                        forall|k: int| start <= k < j ==> !pass::is_delimiter(#[trigger] b@[k]),
                    decreases n - j,
                {
                    j += 1;
                }
                proof {
                    assert forall|k: int| 0 <= k < j - start implies !pass::is_delimiter(
                        #[trigger] rest[k],
                    ) by {
                        assert(rest[k] == b@[start + k]);
                    }
                    if j < n {
                        assert(rest[j - start] == b@[j as int]);
                        lemma_ascii_byte_is_character(b@, j as int);
                    } else {
                        vstd::utf8::is_char_boundary_start_end_of_seq(b@);
                    }
                    pass::lemma_word_len(rest, j - start);
                }
                let word = str_slice(route, start, j);
                tokens.push(word);
                proof {
                    assert(rest.subrange(0, j - start) =~= b@.subrange(start as int, j as int));
                    assert(rest.subrange(j - start, rest.len() as int) =~= b@.subrange(
                        j as int,
                        n as int,
                    ));
                    assert(pass::token_bytes(tokens@) =~= before.push(word.spec_bytes()));
                    assert(before.push(word.spec_bytes()) + pass::tokens_of(
                        b@.subrange(j as int, n as int),
                    ) =~= before + pass::tokens_of(rest));
                }
                i = j;
            }
        }
        proof {
            assert(pass::tokens_of(b@.subrange(n as int, n as int)) =~= Seq::<Seq<u8>>::empty());
            assert(pass::token_bytes(tokens@) =~= pass::tokens_of(b@));
            pass::law_tokens_are_words(b@);
            assert forall|k: int| 0 <= k < tokens@.len() implies pass::is_token(
                #[trigger] tokens@[k].spec_bytes(),
            ) by {
                assert(pass::token_bytes(tokens@)[k] == tokens@[k].spec_bytes());
            }
        }
        tokens
    }

    /// The element, if any, that the pass emits for `token`, where `is_last`
    /// says that it is the last token of the route, `first_point_parsed`
    /// that a point, a departure or an arrival has been emitted before, and
    /// `after_direct` that the element emitted last is `DCT`.
    pub fn classify(
        token: &str,
        is_last: bool,
        first_point_parsed: bool,
        after_direct: bool,
    ) -> (r: Option<Field15Element>)
        ensures
            optional_element_view(r) == pass::classify(
                token.spec_bytes(),
                is_last,
                first_point_parsed,
                after_direct,
            ),
    {
        proof {
            reveal(pass::classify);
        }
        let b = token.as_bytes();
        if same_bytes(b, "/".as_bytes()) {
            return None;
        }
        if let Some(modifier) = Self::parse_modifier(token) {
            return Some(Field15Element::Modifier(modifier));
        }
        if same_bytes(b, "DCT".as_bytes()) {
            Some(Field15Element::Connector(Connector::Direct))
        } else if same_bytes(b, "VFR".as_bytes()) {
            Some(Field15Element::Connector(Connector::Vfr))
        } else if same_bytes(b, "IFR".as_bytes()) {
            Some(Field15Element::Connector(Connector::Ifr))
        } else if same_bytes(b, "OAT".as_bytes()) {
            Some(Field15Element::Connector(Connector::Oat))
        } else if same_bytes(b, "GAT".as_bytes()) {
            Some(Field15Element::Connector(Connector::Gat))
        } else if same_bytes(b, "IFPSTOP".as_bytes()) {
            Some(Field15Element::Connector(Connector::IfpStop))
        } else if same_bytes(b, "IFPSTART".as_bytes()) {
            Some(Field15Element::Connector(Connector::IfpStart))
        } else if same_bytes(b, "SID".as_bytes()) {
            Some(Field15Element::Connector(Connector::Sid(token.to_owned())))
        } else if same_bytes(b, "STAR".as_bytes()) {
            Some(Field15Element::Connector(Connector::Star(token.to_owned())))
        } else if !first_point_parsed && Self::is_procedure(token) {
            Some(Field15Element::Connector(Connector::Sid(token.to_owned())))
        } else if is_last && Self::is_procedure(token) {
            Some(Field15Element::Connector(Connector::Star(token.to_owned())))
        } else if after_direct {
            point_element(Self::parse_point(token))
        } else if Self::is_nat(token) {
            Some(Field15Element::Connector(Connector::Nat(token.to_owned())))
        } else if Self::is_pts(token) {
            Some(Field15Element::Connector(Connector::Pts(token.to_owned())))
        } else if Self::is_airway(token) {
            Some(Field15Element::Connector(Connector::Airway(token.to_owned())))
        } else {
            point_element(Self::parse_point(token))
        }
    }

    /// The elements of `route`, in the order of its tokens. Tokens that
    /// spell nothing are left out, and so is everything from the first `T`
    /// on.
    pub fn parse(route: &str) -> (elements: Vec<Field15Element>)
        ensures
            element_views(elements@) == pass::route_elements(route.spec_bytes()),
    {
        let tokens = Self::tokenize(route);
        let ghost words = pass::token_bytes(tokens@);
        let mut elements: Vec<Field15Element> = Vec::new();
        let mut first_point_parsed = false;
        let mut i: usize = 0;
        proof {
            assert(element_views(elements@) =~= Seq::<ElementView>::empty());
        }
        while i < tokens.len()
            invariant
                i <= tokens@.len(),
                words == pass::token_bytes(tokens@),
                words == pass::tokens_of(route.spec_bytes()),
                pass::elements_from(words, i as int, first_point_parsed, element_views(elements@))
                    == pass::elements_of(words),
            decreases tokens.len() - i,
        {
            let token = tokens[i];
            assert(words[i as int] == token.spec_bytes());
            if same_bytes(token.as_bytes(), "T".as_bytes()) {
                return elements;
            }
            let after_direct = elements.len() > 0 && is_direct(&elements[elements.len() - 1]);
            let ghost before = element_views(elements@);
            proof {
                if elements@.len() > 0 {
                    assert(before.last() == elements@.last()@);
                }
            }
            let emitted = Self::classify(
                token,
                i == tokens.len() - 1,
                first_point_parsed,
                after_direct,
            );
            match emitted {
                Some(element) => {
                    if claims_first_point(&element) {
                        first_point_parsed = true;
                    }
                    elements.push(element);
                    assert(element_views(elements@) =~= before.push(element@));
                },
                None => {},
            }
            i += 1;
        }
        elements
    }
}

} // verus!
