//! The lexical grammar of route tokens, as specification functions over
//! bytes: which tokens are tracks, procedures, airways and coordinates, and
//! what speeds, levels and points they spell.

use super::ascii::{
    all_digits, all_upper, decimal_value, ends_with, first_index, has_digit, is_digit, is_upper,
    starts_with,
};
use super::elements::{Altitude, Angle, Coordinate, Modifier, PointView, Speed};
use vstd::prelude::*;
use vstd::string::StringSliceAdditionalSpecFns;

verus! {

/// The bytes of a piece of text.
pub open spec fn text(s: &str) -> Seq<u8> {
    s.spec_bytes()
}

/// A North Atlantic track: `NAT` and a letter, or `NAT`, a letter and a
/// digit. `NAT` and a digit alone is not one.
pub open spec fn is_nat(t: Seq<u8>) -> bool {
    &&& t.len() == 4 || t.len() == 5
    &&& starts_with(t, text("NAT"))
    &&& is_upper(t[3])
    &&& t.len() == 5 ==> is_digit(t[4])
}

/// A Pacific track: `PTS` and a digit or a letter.
pub open spec fn is_pts(t: Seq<u8>) -> bool {
    &&& t.len() == 4
    &&& starts_with(t, text("PTS"))
    &&& is_digit(t[3]) || is_upper(t[3])
}

/// `t` is `letters` upper-case letters, then `digits` digits, then `suffix`
/// upper-case letters, and nothing else.
pub open spec fn has_shape(t: Seq<u8>, letters: int, digits: int, suffix: int) -> bool {
    &&& t.len() == letters + digits + suffix
    &&& all_upper(t.subrange(0, letters))
    &&& all_digits(t.subrange(letters, letters + digits))
    &&& all_upper(t.subrange(letters + digits, letters + digits + suffix))
}

/// A departure or arrival procedure designator. With `A` for a letter and
/// `D` for a digit, the shapes are `AAAD[D]A`, `AAAAAD[D]`, `AAAA[A][A]DA`
/// and `AAAAADDA`.
pub open spec fn is_procedure(t: Seq<u8>) -> bool {
    ||| has_shape(t, 3, 1, 1)
    ||| has_shape(t, 3, 2, 1)
    ||| has_shape(t, 5, 1, 0)
    ||| has_shape(t, 5, 2, 0)
    ||| has_shape(t, 4, 1, 1)
    ||| has_shape(t, 5, 1, 1)
    ||| has_shape(t, 6, 1, 1)
    ||| has_shape(t, 5, 2, 1)
}

/// A letter that names a class of ATS route:
/// `A B G H J L M N P Q R T V W Y Z`.
pub open spec fn is_route_letter(b: u8) -> bool {
    ||| b == 'A' as u8
    ||| b == 'B' as u8
    ||| b == 'G' as u8
    ||| b == 'H' as u8
    ||| b == 'J' as u8
    ||| b == 'L' as u8
    ||| b == 'M' as u8
    ||| b == 'N' as u8
    ||| b == 'P' as u8
    ||| b == 'Q' as u8
    ||| b == 'R' as u8
    ||| b == 'T' as u8
    ||| b == 'V' as u8
    ||| b == 'W' as u8
    ||| b == 'Y' as u8
    ||| b == 'Z' as u8
}

/// `t` begins with an airway prefix: a route letter, or `U` (upper airspace)
/// and a route letter.
pub open spec fn has_airway_prefix(t: Seq<u8>) -> bool {
    ||| t.len() >= 1 && is_route_letter(t[0])
    ||| t.len() >= 2 && t[0] == 'U' as u8 && is_route_letter(t[1])
}

/// An airway designator: two to seven bytes that begin with an airway
/// prefix and hold a digit, and that are no North Atlantic or Pacific track.
pub open spec fn is_airway(t: Seq<u8>) -> bool {
    &&& 2 <= t.len() <= 7
    &&& !is_nat(t)
    &&& !is_pts(t)
    &&& has_digit(t)
    &&& has_airway_prefix(t)
}

/// Where the first `a` stands in `t`, or else the first `b`.
pub open spec fn first_mark(t: Seq<u8>, a: u8, b: u8) -> Option<int> {
    match first_index(t, a) {
        Some(i) => Some(i),
        None => first_index(t, b),
    }
}

/// Where the latitude of `t` ends: at its first `N`, or else its first `S`.
pub open spec fn latitude_mark(t: Seq<u8>) -> Option<int> {
    first_mark(t, 'N' as u8, 'S' as u8)
}

/// Where the longitude of `t` ends: at its first `E`, or else its first `W`.
pub open spec fn longitude_mark(t: Seq<u8>) -> Option<int> {
    first_mark(t, 'E' as u8, 'W' as u8)
}

/// A run of digits that is not empty.
pub open spec fn is_number(s: Seq<u8>) -> bool {
    s.len() > 0 && all_digits(s)
}

/// A token in the form of a coordinate: at least four bytes, made of a
/// number and `N` or `S`, of a number and `E` or `W`, or of the first
/// followed by the second.
pub open spec fn is_coordinate(t: Seq<u8>) -> bool {
    t.len() >= 4 && match (latitude_mark(t), longitude_mark(t)) {
        (Some(p), Some(q)) => {
            &&& p < q
            &&& is_number(t.subrange(0, p))
            &&& is_number(t.subrange(p + 1, q))
            &&& q == t.len() - 1
        },
        (Some(p), None) => is_number(t.subrange(0, p)) && p == t.len() - 1,
        (None, Some(q)) => is_number(t.subrange(0, q)) && q == t.len() - 1,
        (None, None) => false,
    }
}

/// The speed that `s` spells: `N` and four digits (knots), `M` and three
/// digits (Mach, in hundredths) or `K` and four digits (km/h).
pub open spec fn parse_speed(s: Seq<u8>) -> Option<Speed> {
    if s.len() == 5 && s[0] == 'N' as u8 && all_digits(s.subrange(1, 5)) {
        Some(Speed::Knots(decimal_value(s.subrange(1, 5)) as u16))
    } else if s.len() == 4 && s[0] == 'M' as u8 && all_digits(s.subrange(1, 4)) {
        Some(Speed::Mach(decimal_value(s.subrange(1, 4)) as u16))
    } else if s.len() == 5 && s[0] == 'K' as u8 && all_digits(s.subrange(1, 5)) {
        Some(Speed::KilometersPerHour(decimal_value(s.subrange(1, 5)) as u16))
    } else {
        None
    }
}

/// The level that `s` spells: `VFR`, `F` and three digits, or `S`, `A` or
/// `M` and four digits.
pub open spec fn parse_altitude(s: Seq<u8>) -> Option<Altitude> {
    if s == text("VFR") {
        Some(Altitude::Vfr)
    } else if s.len() == 4 && s[0] == 'F' as u8 && all_digits(s.subrange(1, 4)) {
        Some(Altitude::FlightLevel(decimal_value(s.subrange(1, 4)) as u16))
    } else if s.len() == 5 && s[0] == 'S' as u8 && all_digits(s.subrange(1, 5)) {
        Some(Altitude::MetricLevel(decimal_value(s.subrange(1, 5)) as u16))
    } else if s.len() == 5 && s[0] == 'A' as u8 && all_digits(s.subrange(1, 5)) {
        Some(Altitude::Altitude(decimal_value(s.subrange(1, 5)) as u16))
    } else if s.len() == 5 && s[0] == 'M' as u8 && all_digits(s.subrange(1, 5)) {
        Some(Altitude::MetricAltitude(decimal_value(s.subrange(1, 5)) as u16))
    } else {
        None
    }
}

/// The token without a trailing `PLUS`.
pub open spec fn without_plus(t: Seq<u8>) -> Seq<u8> {
    if ends_with(t, text("PLUS")) {
        t.subrange(0, t.len() - 4)
    } else {
        t
    }
}

/// How many bytes of `base` the speed takes: four for a Mach number, five
/// otherwise.
pub open spec fn speed_width(base: Seq<u8>) -> int {
    if base.len() > 0 && base[0] == 'M' as u8 {
        4
    } else {
        5
    }
}

/// The change of speed and level that `t` spells.
///
/// A trailing `PLUS` is cut off and sets `cruise_climb`. What is left, the
/// base, has at least four bytes, as the shortest level has. If the base
/// begins with a speed, the rest of it is the level; if it does not, all
/// of it is the level, so that a level can stand alone. A token is a
/// modifier only if it has a level: a speed alone is none.
pub open spec fn parse_modifier(t: Seq<u8>) -> Option<Modifier> {
    let base = without_plus(t);
    let width = speed_width(base);
    if t.len() < 4 || base.len() < 4 {
        None
    } else {
        let speed = if base.len() >= width {
            parse_speed(base.subrange(0, width))
        } else {
            None
        };
        let altitude = if speed.is_some() {
            parse_altitude(base.subrange(width, base.len() as int))
        } else {
            parse_altitude(base)
        };
        if altitude.is_some() {
            Some(Modifier { speed, altitude, cruise_climb: ends_with(t, text("PLUS")) })
        } else {
            None
        }
    }
}

/// The angle that a field of digits spells: `width` digits of degrees, or
/// `width` digits of degrees and two of minutes.
pub open spec fn parse_angle(field: Seq<u8>, width: int, negative: bool) -> Option<Angle> {
    if field.len() == width && all_digits(field) {
        Some(Angle { negative, degrees: decimal_value(field) as u16, minutes: 0 })
    } else if field.len() == width + 2 && all_digits(field) {
        Some(
            Angle {
                negative,
                degrees: decimal_value(field.subrange(0, width)) as u16,
                minutes: decimal_value(field.subrange(width, width + 2)) as u16,
            },
        )
    } else {
        None
    }
}

/// The position that `t` spells. The latitude is the field before the
/// latitude mark, `DD` or `DDMM`; the longitude is the field between that
/// mark and the longitude mark, `DDD` or `DDDMM`. South and west are
/// negative. What follows the longitude mark is not read.
pub open spec fn parse_coordinate(t: Seq<u8>) -> Option<Coordinate> {
    match (latitude_mark(t), longitude_mark(t)) {
        (Some(p), Some(q)) => match parse_angle(t.subrange(0, p), 2, t[p] == 'S' as u8) {
            Some(latitude) => if p < q {
                match parse_angle(t.subrange(p + 1, q), 3, t[q] == 'W' as u8) {
                    Some(longitude) => Some(Coordinate { latitude, longitude }),
                    None => None,
                }
            } else {
                None
            },
            None => None,
        },
        _ => None,
    }
}

/// The point that a bearing and distance start from, spelled by `name`: a
/// coordinate if `name` has the form of one, else a waypoint if `name` is
/// made of upper-case letters.
pub open spec fn parse_reference_point(name: Seq<u8>) -> Option<PointView> {
    if is_coordinate(name) {
        match parse_coordinate(name) {
            Some(c) => Some(PointView::Coordinate(c)),
            None => None,
        }
    } else if name.len() > 0 && all_upper(name) {
        Some(PointView::Waypoint(name))
    } else {
        None
    }
}

/// The bearing and distance that `t` spells: a reference point followed by
/// three digits of bearing, at most 360, and three digits of distance.
pub open spec fn parse_bearing_distance(t: Seq<u8>) -> Option<PointView> {
    let n = t.len() as int;
    if n > 6 && all_digits(t.subrange(n - 6, n)) && decimal_value(t.subrange(n - 6, n - 3))
        <= 360 {
        match parse_reference_point(t.subrange(0, n - 6)) {
            Some(point) => Some(
                PointView::BearingDistance {
                    point: Box::new(point),
                    bearing: decimal_value(t.subrange(n - 6, n - 3)) as u16,
                    distance: decimal_value(t.subrange(n - 3, n)) as u16,
                },
            ),
            None => None,
        }
    } else {
        None
    }
}

/// The point that `t` spells, if any.
///
/// A token in the form of a coordinate is that coordinate, or nothing if
/// its fields have the wrong widths. Otherwise the token is a bearing and
/// distance if it spells one, an aerodrome if it is four upper-case
/// letters, and a waypoint of that name in every other case. The empty
/// token is no point.
pub open spec fn parse_point(t: Seq<u8>) -> Option<PointView> {
    if t.len() == 0 {
        None
    } else if is_coordinate(t) {
        match parse_coordinate(t) {
            Some(c) => Some(PointView::Coordinate(c)),
            None => None,
        }
    } else if parse_bearing_distance(t).is_some() {
        parse_bearing_distance(t)
    } else if t.len() == 4 && all_upper(t) {
        Some(PointView::Aerodrome(t))
    } else {
        Some(PointView::Waypoint(t))
    }
}

/// The bytes of the words that the pass knows by name.
pub proof fn lemma_text_of_keywords()
    ensures
        text("/") == seq!['/' as u8],
        text("T") == seq!['T' as u8],
        text("DCT") == seq!['D' as u8, 'C' as u8, 'T' as u8],
        text("VFR") == seq!['V' as u8, 'F' as u8, 'R' as u8],
        text("IFR") == seq!['I' as u8, 'F' as u8, 'R' as u8],
        text("OAT") == seq!['O' as u8, 'A' as u8, 'T' as u8],
        text("GAT") == seq!['G' as u8, 'A' as u8, 'T' as u8],
        text("SID") == seq!['S' as u8, 'I' as u8, 'D' as u8],
        text("STAR") == seq!['S' as u8, 'T' as u8, 'A' as u8, 'R' as u8],
        text("PLUS") == seq!['P' as u8, 'L' as u8, 'U' as u8, 'S' as u8],
        text("IFPSTOP") == seq![
            'I' as u8,
            'F' as u8,
            'P' as u8,
            'S' as u8,
            'T' as u8,
            'O' as u8,
            'P' as u8,
        ],
        text("IFPSTART") == seq![
            'I' as u8,
            'F' as u8,
            'P' as u8,
            'S' as u8,
            'T' as u8,
            'A' as u8,
            'R' as u8,
            'T' as u8,
        ],
{
    reveal_strlit("/");
    vstd::utf8::is_ascii_chars_encode_utf8("/"@);
    assert(text("/") =~= seq!['/' as u8]);
    reveal_strlit("T");
    vstd::utf8::is_ascii_chars_encode_utf8("T"@);
    assert(text("T") =~= seq!['T' as u8]);
    reveal_strlit("DCT");
    vstd::utf8::is_ascii_chars_encode_utf8("DCT"@);
    assert(text("DCT") =~= seq!['D' as u8, 'C' as u8, 'T' as u8]);
    reveal_strlit("VFR");
    vstd::utf8::is_ascii_chars_encode_utf8("VFR"@);
    assert(text("VFR") =~= seq!['V' as u8, 'F' as u8, 'R' as u8]);
    reveal_strlit("IFR");
    vstd::utf8::is_ascii_chars_encode_utf8("IFR"@);
    assert(text("IFR") =~= seq!['I' as u8, 'F' as u8, 'R' as u8]);
    reveal_strlit("OAT");
    vstd::utf8::is_ascii_chars_encode_utf8("OAT"@);
    assert(text("OAT") =~= seq!['O' as u8, 'A' as u8, 'T' as u8]);
    reveal_strlit("GAT");
    vstd::utf8::is_ascii_chars_encode_utf8("GAT"@);
    assert(text("GAT") =~= seq!['G' as u8, 'A' as u8, 'T' as u8]);
    reveal_strlit("SID");
    vstd::utf8::is_ascii_chars_encode_utf8("SID"@);
    assert(text("SID") =~= seq!['S' as u8, 'I' as u8, 'D' as u8]);
    reveal_strlit("STAR");
    vstd::utf8::is_ascii_chars_encode_utf8("STAR"@);
    assert(text("STAR") =~= seq!['S' as u8, 'T' as u8, 'A' as u8, 'R' as u8]);
    reveal_strlit("PLUS");
    vstd::utf8::is_ascii_chars_encode_utf8("PLUS"@);
    assert(text("PLUS") =~= seq!['P' as u8, 'L' as u8, 'U' as u8, 'S' as u8]);
    reveal_strlit("IFPSTOP");
    vstd::utf8::is_ascii_chars_encode_utf8("IFPSTOP"@);
    assert(text("IFPSTOP") =~= seq![
        'I' as u8,
        'F' as u8,
        'P' as u8,
        'S' as u8,
        'T' as u8,
        'O' as u8,
        'P' as u8,
    ]);
    reveal_strlit("IFPSTART");
    vstd::utf8::is_ascii_chars_encode_utf8("IFPSTART"@);
    assert(text("IFPSTART") =~= seq![
        'I' as u8,
        'F' as u8,
        'P' as u8,
        'S' as u8,
        'T' as u8,
        'A' as u8,
        'R' as u8,
        'T' as u8,
    ]);
}

} // verus!
