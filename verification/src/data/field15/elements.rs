//! The elements of a parsed route, and what each one stands for.
//!
//! Names are kept as `String`s. Contracts speak of an element through its
//! view, in which every name is the sequence of its UTF-8 bytes.

use vstd::prelude::*;
use vstd::utf8::encode_utf8;

verus! {

/// An angle in whole degrees and minutes of arc: in degrees,
/// `degrees + minutes / 60`, with a minus sign if `negative`. Southern
/// latitudes and western longitudes are negative.
#[derive(Debug, Clone, Copy, PartialEq, Eq, Structural)]
pub struct Angle {
    pub negative: bool,
    pub degrees: u16,
    pub minutes: u16,
}

/// A position given by latitude and longitude.
#[derive(Debug, Clone, Copy, PartialEq, Eq, Structural)]
pub struct Coordinate {
    pub latitude: Angle,
    pub longitude: Angle,
}

/// A speed, in the unit its token names.
#[derive(Debug, Clone, Copy, PartialEq, Eq, Structural)]
pub enum Speed {
    /// Knots (`N` and four digits).
    Knots(u16),
    /// Mach number in hundredths (`M` and three digits): `M079` is Mach 0.79
    /// and is held as 79.
    Mach(u16),
    /// Kilometres per hour (`K` and four digits).
    KilometersPerHour(u16),
}

/// A level or an altitude, in the unit its token names.
#[derive(Debug, Clone, Copy, PartialEq, Eq, Structural)]
pub enum Altitude {
    /// Flight level (`F` and three digits).
    FlightLevel(u16),
    /// Standard metric level in tens of metres (`S` and four digits).
    MetricLevel(u16),
    /// Altitude in hundreds of feet (`A` and four digits).
    Altitude(u16),
    /// Altitude in tens of metres (`M` and four digits).
    MetricAltitude(u16),
    /// Uncontrolled VFR flight (`VFR`).
    Vfr,
}

/// A change of speed and level.
#[derive(Debug, Clone, Copy, PartialEq, Eq, Structural)]
pub struct Modifier {
    pub speed: Option<Speed>,
    pub altitude: Option<Altitude>,
    /// Whether the token ended in `PLUS` (cruise climb).
    pub cruise_climb: bool,
}

/// A geographic reference.
#[derive(Debug, PartialEq)]
pub enum Point {
    /// A published route point or navaid, by name.
    Waypoint(String),
    /// A latitude and longitude.
    Coordinate(Coordinate),
    /// A bearing in degrees and a distance in nautical miles from another
    /// point.
    BearingDistance { point: Box<Point>, bearing: u16, distance: u16 },
    /// An aerodrome, by its four-letter location indicator.
    Aerodrome(String),
}

/// A link between points, or a change of flight rules.
#[derive(Debug, Clone, PartialEq)]
pub enum Connector {
    /// A named ATS route.
    Airway(String),
    /// Direct routing (`DCT`).
    Direct,
    /// A departure procedure: its designator, or `SID` where the route only
    /// says that there is one.
    Sid(String),
    /// An arrival procedure: its designator, or `STAR` where the route only
    /// says that there is one.
    Star(String),
    /// Change to visual flight rules.
    Vfr,
    /// Change to instrument flight rules.
    Ifr,
    /// Change to operational air traffic.
    Oat,
    /// Change to general air traffic.
    Gat,
    /// IFR handling stops here.
    IfpStop,
    /// IFR handling starts here.
    IfpStart,
    /// Stay at the current position.
    Stay,
    /// A North Atlantic track.
    Nat(String),
    /// A Pacific track.
    Pts(String),
}

/// One element of a route.
#[derive(Debug, Clone, PartialEq)]
pub enum Field15Element {
    Point(Point),
    Connector(Connector),
    Modifier(Modifier),
}

/// The bytes of a name.
pub open spec fn name_bytes(name: String) -> Seq<u8> {
    encode_utf8(name@)
}

/// What a [`Point`] stands for.
pub enum PointView {
    Waypoint(Seq<u8>),
    Coordinate(Coordinate),
    BearingDistance { point: Box<PointView>, bearing: u16, distance: u16 },
    Aerodrome(Seq<u8>),
}

/// What a [`Connector`] stands for.
pub enum ConnectorView {
    Airway(Seq<u8>),
    Direct,
    Sid(Seq<u8>),
    Star(Seq<u8>),
    Vfr,
    Ifr,
    Oat,
    Gat,
    IfpStop,
    IfpStart,
    Stay,
    Nat(Seq<u8>),
    Pts(Seq<u8>),
}

/// What a [`Field15Element`] stands for.
pub enum ElementView {
    Point(PointView),
    Connector(ConnectorView),
    Modifier(Modifier),
}

/// What a point stands for; the view of a [`Point`].
pub open spec fn point_view(p: Point) -> PointView
    decreases p,
{
    match p {
        Point::Waypoint(name) => PointView::Waypoint(name_bytes(name)),
        Point::Coordinate(c) => PointView::Coordinate(c),
        Point::BearingDistance { point, bearing, distance } => PointView::BearingDistance {
            point: Box::new(point_view(*point)),
            bearing,
            distance,
        },
        Point::Aerodrome(name) => PointView::Aerodrome(name_bytes(name)),
    }
}

impl View for Point {
    type V = PointView;

    open spec fn view(&self) -> PointView {
        point_view(*self)
    }
}

impl View for Connector {
    type V = ConnectorView;

    open spec fn view(&self) -> ConnectorView {
        match self {
            Connector::Airway(name) => ConnectorView::Airway(name_bytes(*name)),
            Connector::Direct => ConnectorView::Direct,
            Connector::Sid(name) => ConnectorView::Sid(name_bytes(*name)),
            Connector::Star(name) => ConnectorView::Star(name_bytes(*name)),
            Connector::Vfr => ConnectorView::Vfr,
            Connector::Ifr => ConnectorView::Ifr,
            Connector::Oat => ConnectorView::Oat,
            Connector::Gat => ConnectorView::Gat,
            Connector::IfpStop => ConnectorView::IfpStop,
            Connector::IfpStart => ConnectorView::IfpStart,
            Connector::Stay => ConnectorView::Stay,
            Connector::Nat(name) => ConnectorView::Nat(name_bytes(*name)),
            Connector::Pts(name) => ConnectorView::Pts(name_bytes(*name)),
        }
    }
}

impl View for Field15Element {
    type V = ElementView;

    open spec fn view(&self) -> ElementView {
        match self {
            Field15Element::Point(p) => ElementView::Point(p.view()),
            Field15Element::Connector(c) => ElementView::Connector(c.view()),
            Field15Element::Modifier(m) => ElementView::Modifier(*m),
        }
    }
}

impl Point {
    /// A copy of the point.
    pub fn duplicate(&self) -> (r: Point)
        ensures
            r@ == self@,
        decreases self,
    {
        match self {
            Point::Waypoint(name) => Point::Waypoint(name.clone()),
            Point::Coordinate(c) => Point::Coordinate(*c),
            Point::BearingDistance { point, bearing, distance } => Point::BearingDistance {
                point: Box::new(point.duplicate()),
                bearing: *bearing,
                distance: *distance,
            },
            Point::Aerodrome(name) => Point::Aerodrome(name.clone()),
        }
    }
}

impl Clone for Point {
    fn clone(&self) -> (r: Point)
        ensures
            r@ == self@,
    {
        self.duplicate()
    }
}

/// What a point stands for, if there is one.
pub open spec fn optional_point_view(p: Option<Point>) -> Option<PointView> {
    match p {
        Some(p) => Some(p@),
        None => None,
    }
}

/// What an element stands for, if there is one.
pub open spec fn optional_element_view(e: Option<Field15Element>) -> Option<ElementView> {
    match e {
        Some(e) => Some(e@),
        None => None,
    }
}

/// What each of the elements stands for.
pub open spec fn element_views(elements: Seq<Field15Element>) -> Seq<ElementView> {
    elements.map_values(|e: Field15Element| e@)
}

impl PointView {
    /// A point that a bearing and distance can start from: a waypoint or a
    /// coordinate.
    pub open spec fn is_plain(self) -> bool {
        self is Waypoint || self is Coordinate
    }

    /// The point is one that a route can hold: names are not empty, an
    /// aerodrome is four upper-case letters, and a bearing of at most 360
    /// degrees and a distance of at most 999 miles start from a plain point.
    pub open spec fn well_formed(self) -> bool {
        match self {
            PointView::Waypoint(name) => name.len() > 0,
            PointView::Coordinate(_) => true,
            PointView::BearingDistance { point, bearing, distance } => {
                &&& point.is_plain()
                &&& (*point matches PointView::Waypoint(name) ==> name.len() > 0)
                &&& bearing <= 360
                &&& distance <= 999
            },
            PointView::Aerodrome(name) => name.len() == 4 && super::ascii::all_upper(name),
        }
    }
}

} // verus!
