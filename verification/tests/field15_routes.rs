use thrust::data::field15::{
    Altitude, Angle, Connector, Coordinate, Field15Element, Field15Parser, Modifier, Point, Speed,
};

/// The angle of so many degrees, with its sign.
fn angle(degrees: f64) -> Angle {
    let whole = degrees.abs().floor();
    Angle {
        negative: degrees < 0.0,
        degrees: whole as u16,
        minutes: ((degrees.abs() - whole) * 60.0).round() as u16,
    }
}

/// The point at a latitude and a longitude in degrees.
fn coords(latitude: f64, longitude: f64) -> Point {
    Point::Coordinate(Coordinate { latitude: angle(latitude), longitude: angle(longitude) })
}

#[test]
fn test_slash_handling() {
    let route = "N0450F100 POINT/M079F200";
    let elements = Field15Parser::parse(route);

    // Should have initial modifier, point, and then modified speed/altitude
    assert!(elements.len() >= 3);

    let modifiers: Vec<_> = elements
        .iter()
        .filter(|e| matches!(e, Field15Element::Modifier(_)))
        .collect();
    assert_eq!(modifiers.len(), 2);
}

#[test]
fn test_bearing_distance_with_coordinate() {
    let route = "N0450F100 02S001W180060";
    let elements = Field15Parser::parse(route);

    let bearing_dist = elements
        .iter()
        .find(|e| matches!(e, Field15Element::Point(Point::BearingDistance { .. })));

    assert!(bearing_dist.is_some());
    if let Some(Field15Element::Point(Point::BearingDistance {
        point,
        bearing,
        distance,
    })) = bearing_dist
    {
        assert_eq!(**point, coords(-2.0, -1.0));
        assert_eq!(*bearing, 180);
        assert_eq!(*distance, 60);
    }
}

#[test]
fn test_simple_route() {
    let route = "N0456F340 LACOU5A LACOU UM184 CNA UN863 MANAK UY110 REVTU UP87 ROXOG ROXOG1H";
    let elements = Field15Parser::parse(route);

    assert_eq!(elements.len(), 12);
    assert_eq!(
        elements,
        vec![
            Field15Element::Modifier(Modifier {
                speed: Some(Speed::Knots(456)),
                altitude: Some(Altitude::FlightLevel(340)),
                cruise_climb: false,
            }),
            Field15Element::Connector(Connector::Sid("LACOU5A".to_string())),
            Field15Element::Point(Point::Waypoint("LACOU".to_string())),
            Field15Element::Connector(Connector::Airway("UM184".to_string())),
            Field15Element::Point(Point::Waypoint("CNA".to_string())),
            Field15Element::Connector(Connector::Airway("UN863".to_string())),
            Field15Element::Point(Point::Waypoint("MANAK".to_string())),
            Field15Element::Connector(Connector::Airway("UY110".to_string())),
            Field15Element::Point(Point::Waypoint("REVTU".to_string())),
            Field15Element::Connector(Connector::Airway("UP87".to_string())),
            Field15Element::Point(Point::Waypoint("ROXOG".to_string())),
            Field15Element::Connector(Connector::Star("ROXOG1H".to_string())),
        ]
    );
}

#[test]
fn test_readme_example() {

    let route = "N0450M0825 00N000E B9 00N001E VFR IFR 00N001W/N0350F100 01N001W 01S001W 02S001W180060";
    let elements = Field15Parser::parse(route);

    assert_eq!(
        elements,
        vec![
            Field15Element::Modifier(Modifier {
                speed: Some(Speed::Knots(450)),
                altitude: Some(Altitude::MetricAltitude(825)),
                cruise_climb: false,
            }),
            Field15Element::Point(coords(0., 0.)),
            Field15Element::Connector(Connector::Airway("B9".to_string())),
            Field15Element::Point(coords(0., 1.)),
            Field15Element::Connector(Connector::Vfr),
            Field15Element::Connector(Connector::Ifr),
            Field15Element::Point(coords(0., -1.)),
            Field15Element::Modifier(Modifier {
                speed: Some(Speed::Knots(350)),
                altitude: Some(Altitude::FlightLevel(100)),
                cruise_climb: false,
            }),
            Field15Element::Point(coords(1., -1.)),
            Field15Element::Point(coords(-1., -1.)),
            Field15Element::Point(Point::BearingDistance {
                point: Box::new(coords(-2., -1.)),
                bearing: 180,
                distance: 60,
            }),
        ]
    );
}

#[test]
fn test_oat_gat_connectors() {
    let route = "N0450F100 POINT OAT POINT GAT POINT";
    let elements = Field15Parser::parse(route);

    assert_eq!(elements.len(), 6);
    assert_eq!(
        elements,
        vec![
            Field15Element::Modifier(Modifier {
                speed: Some(Speed::Knots(450)),
                altitude: Some(Altitude::FlightLevel(100)),
                cruise_climb: false,
            }),
            Field15Element::Point(Point::Waypoint("POINT".to_string())),
            Field15Element::Connector(Connector::Oat),
            Field15Element::Point(Point::Waypoint("POINT".to_string())),
            Field15Element::Connector(Connector::Gat),
            Field15Element::Point(Point::Waypoint("POINT".to_string())),
        ]
    );
}

#[test]
fn test_ifp_stop_start() {
    let route = "N0450F100 POINT IFPSTOP POINT IFPSTART POINT";
    let elements = Field15Parser::parse(route);
    assert_eq!(elements.len(), 6);
    assert_eq!(
        elements,
        vec![
            Field15Element::Modifier(Modifier {
                speed: Some(Speed::Knots(450)),
                altitude: Some(Altitude::FlightLevel(100)),
                cruise_climb: false,
            }),
            Field15Element::Point(Point::Waypoint("POINT".to_string())),
            Field15Element::Connector(Connector::IfpStop),
            Field15Element::Point(Point::Waypoint("POINT".to_string())),
            Field15Element::Connector(Connector::IfpStart),
            Field15Element::Point(Point::Waypoint("POINT".to_string())),
        ]
    );
}

#[test]
fn test_bearing_distance_format() {
    let route = "N0450F100 POINT WAYPOINT180060";
    let elements = Field15Parser::parse(route);

    assert_eq!(elements.len(), 3);
    assert_eq!(
        elements,
        vec![
            Field15Element::Modifier(Modifier {
                speed: Some(Speed::Knots(450)),
                altitude: Some(Altitude::FlightLevel(100)),
                cruise_climb: false,
            }),
            Field15Element::Point(Point::Waypoint("POINT".to_string())),
            Field15Element::Point(Point::BearingDistance {
                point: Box::new(Point::Waypoint("WAYPOINT".to_string())),
                bearing: 180,
                distance: 60,
            }),
        ]
    );
}

#[test]
fn test_aerodrome_detection() {
    let route = "N0450F100 LFPG DCT EGLL";
    let elements = Field15Parser::parse(route);
    assert_eq!(elements.len(), 4);
    assert_eq!(
        elements,
        vec![
            Field15Element::Modifier(Modifier {
                speed: Some(Speed::Knots(450)),
                altitude: Some(Altitude::FlightLevel(100)),
                cruise_climb: false,
            }),
            Field15Element::Point(Point::Aerodrome("LFPG".to_string())),
            Field15Element::Connector(Connector::Direct),
            Field15Element::Point(Point::Aerodrome("EGLL".to_string())),
        ]
    );
}

#[test]
fn test_truncate_indicator() {
    let route = "N0450F100 POINT DCT POINT2 T";
    let elements = Field15Parser::parse(route);
    assert_eq!(
        elements,
        vec![
            Field15Element::Modifier(Modifier {
                speed: Some(Speed::Knots(450)),
                altitude: Some(Altitude::FlightLevel(100)),
                cruise_climb: false,
            }),
            Field15Element::Point(Point::Waypoint("POINT".to_string())),
            Field15Element::Connector(Connector::Direct),
            Field15Element::Point(Point::Waypoint("POINT2".to_string())),
        ]
    );
}

#[test]
fn test_literal_sid_star() {
    let route = "N0450F100 SID POINT DCT POINT2 STAR";
    let elements = Field15Parser::parse(route);

    assert_eq!(
        elements,
        vec![
            Field15Element::Modifier(Modifier {
                speed: Some(Speed::Knots(450)),
                altitude: Some(Altitude::FlightLevel(100)),
                cruise_climb: false,
            }),
            Field15Element::Connector(Connector::Sid("SID".to_string())),
            Field15Element::Point(Point::Waypoint("POINT".to_string())),
            Field15Element::Connector(Connector::Direct),
            Field15Element::Point(Point::Waypoint("POINT2".to_string())),
            Field15Element::Connector(Connector::Star("STAR".to_string())),
        ]
    );
}

#[test]
fn test_aerodrome_no_digits() {
    let route = "N0450F100 LFPG DCT EGLL";
    let elements = Field15Parser::parse(route);

    assert_eq!(
        elements,
        vec![
            Field15Element::Modifier(Modifier {
                speed: Some(Speed::Knots(450)),
                altitude: Some(Altitude::FlightLevel(100)),
                cruise_climb: false,
            }),
            Field15Element::Point(Point::Aerodrome("LFPG".to_string())),
            Field15Element::Connector(Connector::Direct),
            Field15Element::Point(Point::Aerodrome("EGLL".to_string())),
        ]
    );
}

#[test]
fn test_star_must_be_last() {
    // STAR-like pattern in middle should be waypoint or airway
    let route = "N0450F100 POINT1A POINT DCT POINT";
    let elements = Field15Parser::parse(route);

    // POINT1A should not be STAR since it's not last
    assert!(!elements
        .iter()
        .any(|e| { matches!(e, Field15Element::Connector(Connector::Star(s)) if s == "POINT1A") }));
}

#[test]
fn test_single_char_point() {
    // Single character "C" should be a waypoint, not cruise climb indicator
    let route = "N0450F100 POINT DCT C DCT POINT";
    let elements = Field15Parser::parse(route);

    // C should appear as a waypoint
    assert!(elements
        .iter()
        .any(|e| { matches!(e, Field15Element::Point(Point::Waypoint(s)) if s == "C") }));
}

#[test]
fn test_readme_tokenization() {
    let route = "N0450M0825\n00N000E\tB9 00N001E/VFR";
    let elements = Field15Parser::parse(route);

    assert!(elements.len() >= 5);
    assert!(elements
        .iter()
        .any(|e| matches!(e, Field15Element::Connector(Connector::Vfr))));
}

#[test]
fn test_bearing_distance_validation() {
    let route = "N0450F100 POINT999999";
    let elements = Field15Parser::parse(route);

    // Should not parse as bearing/distance if bearing > 360
    assert!(!elements
        .iter()
        .any(|e| { matches!(e, Field15Element::Point(Point::BearingDistance { bearing, .. }) if *bearing > 360) }));
}

#[test]
fn test_route_with_speed_changes() {
    let route = "N0495F320 RANUX3D RANUX UN858 VALEK/N0491F330 UM163 DIK UN853 ARCKY DCT NVO DCT BERIM DCT BIKRU/N0482F350 DCT VEDEN";
    let elements = Field15Parser::parse(route);

    assert_eq!(elements.len(), 19);
    assert_eq!(
        elements,
        vec![
            Field15Element::Modifier(Modifier {
                speed: Some(Speed::Knots(495)),
                altitude: Some(Altitude::FlightLevel(320)),
                cruise_climb: false,
            }),
            Field15Element::Connector(Connector::Sid("RANUX3D".to_string())),
            Field15Element::Point(Point::Waypoint("RANUX".to_string())),
            Field15Element::Connector(Connector::Airway("UN858".to_string())),
            Field15Element::Point(Point::Waypoint("VALEK".to_string())),
            Field15Element::Modifier(Modifier {
                speed: Some(Speed::Knots(491)),
                altitude: Some(Altitude::FlightLevel(330)),
                cruise_climb: false,
            }),
            Field15Element::Connector(Connector::Airway("UM163".to_string())),
            Field15Element::Point(Point::Waypoint("DIK".to_string())),
            Field15Element::Connector(Connector::Airway("UN853".to_string())),
            Field15Element::Point(Point::Waypoint("ARCKY".to_string())),
            Field15Element::Connector(Connector::Direct),
            Field15Element::Point(Point::Waypoint("NVO".to_string())),
            Field15Element::Connector(Connector::Direct),
            Field15Element::Point(Point::Waypoint("BERIM".to_string())),
            Field15Element::Connector(Connector::Direct),
            Field15Element::Point(Point::Waypoint("BIKRU".to_string())),
            Field15Element::Modifier(Modifier {
                speed: Some(Speed::Knots(482)),
                altitude: Some(Altitude::FlightLevel(350)),
                cruise_climb: false,
            }),
            Field15Element::Connector(Connector::Direct),
            Field15Element::Point(Point::Waypoint("VEDEN".to_string())),
        ]
    );
}

#[test]
fn test_route_with_coordinates() {
    let route = "N0458F320 BERGI UL602 SUPUR UP1 GODOS P1 ROLUM P13 ASKAM L7 SUM DCT PEMOS/M079F320 DCT 62N010W 63N020W 63N030W 64N040W 64N050W";
    let elements = Field15Parser::parse(route);
    assert_eq!(
        elements,
        vec![
            Field15Element::Modifier(Modifier {
                speed: Some(Speed::Knots(458)),
                altitude: Some(Altitude::FlightLevel(320)),
                cruise_climb: false,
            }),
            Field15Element::Point(Point::Waypoint("BERGI".to_string())),
            Field15Element::Connector(Connector::Airway("UL602".to_string())),
            Field15Element::Point(Point::Waypoint("SUPUR".to_string())),
            Field15Element::Connector(Connector::Airway("UP1".to_string())),
            Field15Element::Point(Point::Waypoint("GODOS".to_string())),
            Field15Element::Connector(Connector::Airway("P1".to_string())),
            Field15Element::Point(Point::Waypoint("ROLUM".to_string())),
            Field15Element::Connector(Connector::Airway("P13".to_string())),
            Field15Element::Point(Point::Waypoint("ASKAM".to_string())),
            Field15Element::Connector(Connector::Airway("L7".to_string())),
            Field15Element::Point(Point::Waypoint("SUM".to_string())),
            Field15Element::Connector(Connector::Direct),
            Field15Element::Point(Point::Waypoint("PEMOS".to_string())),
            Field15Element::Modifier(Modifier {
                speed: Some(Speed::Mach(79)),
                altitude: Some(Altitude::FlightLevel(320)),
                cruise_climb: false,
            }),
            Field15Element::Connector(Connector::Direct),
            Field15Element::Point(coords(62., -10.)),
            Field15Element::Point(coords(63., -20.)),
            Field15Element::Point(coords(63., -30.)),
            Field15Element::Point(coords(64., -40.)),
            Field15Element::Point(coords(64., -50.)),
        ]
    );
}

#[test]
fn test_route_with_modifiers() {
    let route = "N0427F230 DET1J DET L6 DVR L9 KONAN/N0470F350 UL607 MATUG";
    let elements = Field15Parser::parse(route);

    assert_eq!(
        elements,
        vec![
            Field15Element::Modifier(Modifier {
                speed: Some(Speed::Knots(427)),
                altitude: Some(Altitude::FlightLevel(230)),
                cruise_climb: false,
            }),
            Field15Element::Connector(Connector::Sid("DET1J".to_string())),
            Field15Element::Point(Point::Waypoint("DET".to_string())),
            Field15Element::Connector(Connector::Airway("L6".to_string())),
            Field15Element::Point(Point::Waypoint("DVR".to_string())),
            Field15Element::Connector(Connector::Airway("L9".to_string())),
            Field15Element::Point(Point::Waypoint("KONAN".to_string())),
            Field15Element::Modifier(Modifier {
                speed: Some(Speed::Knots(470)),
                altitude: Some(Altitude::FlightLevel(350)),
                cruise_climb: false,
            }),
            Field15Element::Connector(Connector::Airway("UL607".to_string())),
            Field15Element::Point(Point::Waypoint("MATUG".to_string())),
        ]
    );
}

#[test]
fn test_multiple_airways() {
    let route =
        "N0463F350 ERIXU3B ERIXU UN860 ETAMO UZ271 ADEKA UT18 AMLIR/N0461F370 UT18 BADAM UZ151 FJR UM731 DIVKO";
    let elements = Field15Parser::parse(route);

    assert_eq!(
        elements,
        vec![
            Field15Element::Modifier(Modifier {
                speed: Some(Speed::Knots(463)),
                altitude: Some(Altitude::FlightLevel(350)),
                cruise_climb: false,
            }),
            Field15Element::Connector(Connector::Sid("ERIXU3B".to_string())),
            Field15Element::Point(Point::Waypoint("ERIXU".to_string())),
            Field15Element::Connector(Connector::Airway("UN860".to_string())),
            Field15Element::Point(Point::Waypoint("ETAMO".to_string())),
            Field15Element::Connector(Connector::Airway("UZ271".to_string())),
            Field15Element::Point(Point::Waypoint("ADEKA".to_string())),
            Field15Element::Connector(Connector::Airway("UT18".to_string())),
            Field15Element::Point(Point::Waypoint("AMLIR".to_string())),
            Field15Element::Modifier(Modifier {
                speed: Some(Speed::Knots(461)),
                altitude: Some(Altitude::FlightLevel(370)),
                cruise_climb: false,
            }),
            Field15Element::Connector(Connector::Airway("UT18".to_string())),
            Field15Element::Point(Point::Waypoint("BADAM".to_string())),
            Field15Element::Connector(Connector::Airway("UZ151".to_string())),
            Field15Element::Point(Point::Waypoint("FJR".to_string())),
            Field15Element::Connector(Connector::Airway("UM731".to_string())),
            Field15Element::Point(Point::Waypoint("DIVKO".to_string())),
        ]
    );
}

#[test]
fn test_long_complex_route() {
    let route = "N0459F320 OBOKA UZ29 TORNU DCT RAVLO Y70 OTBED L60 PENIL M144 BAGSO DCT RINUS DCT GISTI/M079F330 DCT MALOT/M079F340 DCT 54N020W 55N030W 54N040W 51N050W DCT ALLRY/N0463F360 DCT YQX";
    let elements = Field15Parser::parse(route);
    assert_eq!(
        elements,
        vec![
            Field15Element::Modifier(Modifier {
                speed: Some(Speed::Knots(459)),
                altitude: Some(Altitude::FlightLevel(320)),
                cruise_climb: false,
            }),
            Field15Element::Point(Point::Waypoint("OBOKA".to_string())),
            Field15Element::Connector(Connector::Airway("UZ29".to_string())),
            Field15Element::Point(Point::Waypoint("TORNU".to_string())),
            Field15Element::Connector(Connector::Direct),
            Field15Element::Point(Point::Waypoint("RAVLO".to_string())),
            Field15Element::Connector(Connector::Airway("Y70".to_string())),
            Field15Element::Point(Point::Waypoint("OTBED".to_string())),
            Field15Element::Connector(Connector::Airway("L60".to_string())),
            Field15Element::Point(Point::Waypoint("PENIL".to_string())),
            Field15Element::Connector(Connector::Airway("M144".to_string())),
            Field15Element::Point(Point::Waypoint("BAGSO".to_string())),
            Field15Element::Connector(Connector::Direct),
            Field15Element::Point(Point::Waypoint("RINUS".to_string())),
            Field15Element::Connector(Connector::Direct),
            Field15Element::Point(Point::Waypoint("GISTI".to_string())),
            Field15Element::Modifier(Modifier {
                speed: Some(Speed::Mach(79)),
                altitude: Some(Altitude::FlightLevel(330)),
                cruise_climb: false,
            }),
            Field15Element::Connector(Connector::Direct),
            Field15Element::Point(Point::Waypoint("MALOT".to_string())),
            Field15Element::Modifier(Modifier {
                speed: Some(Speed::Mach(79)),
                altitude: Some(Altitude::FlightLevel(340)),
                cruise_climb: false,
            }),
            Field15Element::Connector(Connector::Direct),
            Field15Element::Point(coords(54., -20.)),
            Field15Element::Point(coords(55., -30.)),
            Field15Element::Point(coords(54., -40.)),
            Field15Element::Point(coords(51., -50.)),
            Field15Element::Connector(Connector::Direct),
            Field15Element::Point(Point::Waypoint("ALLRY".to_string())),
            Field15Element::Modifier(Modifier {
                speed: Some(Speed::Knots(463)),
                altitude: Some(Altitude::FlightLevel(360)),
                cruise_climb: false,
            }),
            Field15Element::Connector(Connector::Direct),
            Field15Element::Point(Point::Waypoint("YQX".to_string())),
        ]
    );
}

#[test]
fn test_complex_route_for_tokenization() {
    let route = "N0450M0825 00N000E B9 00N001E VFR IFR 00N001W/N0350F100 01N001W 01S001W 02S001W180060";
    let elements = Field15Parser::parse(route);
    assert_eq!(
        elements,
        vec![
            Field15Element::Modifier(Modifier {
                speed: Some(Speed::Knots(450)),
                altitude: Some(Altitude::MetricAltitude(825)),
                cruise_climb: false,
            }),
            Field15Element::Point(coords(0., 0.)),
            Field15Element::Connector(Connector::Airway("B9".to_string())),
            Field15Element::Point(coords(0., 1.)),
            Field15Element::Connector(Connector::Vfr),
            Field15Element::Connector(Connector::Ifr),
            Field15Element::Point(coords(0., -1.)),
            Field15Element::Modifier(Modifier {
                speed: Some(Speed::Knots(350)),
                altitude: Some(Altitude::FlightLevel(100)),
                cruise_climb: false,
            }),
            Field15Element::Point(coords(1., -1.)),
            Field15Element::Point(coords(-1., -1.)),
            Field15Element::Point(Point::BearingDistance {
                point: Box::new(coords(-2., -1.)),
                bearing: 180,
                distance: 60,
            }),
        ]
    );
}

#[test]
fn test_nat_track_in_route() {
    let route = "N0490F360 ELCOB6B ELCOB UT300 SENLO UN502 JSY DCT LIZAD DCT MOPAT DCT LUNIG DCT MOMIN DCT PIKIL/M084F380 NATD HOIST/N0490F380 N756C ANATI/N0441F340 DCT MIVAX DCT OBTEK DCT XORLO ROCKT2";
    let elements = Field15Parser::parse(route);

    assert_eq!(
        elements,
        vec![
            Field15Element::Modifier(Modifier {
                speed: Some(Speed::Knots(490)),
                altitude: Some(Altitude::FlightLevel(360)),
                cruise_climb: false,
            }),
            Field15Element::Connector(Connector::Sid("ELCOB6B".to_string())),
            Field15Element::Point(Point::Waypoint("ELCOB".to_string())),
            Field15Element::Connector(Connector::Airway("UT300".to_string())),
            Field15Element::Point(Point::Waypoint("SENLO".to_string())),
            Field15Element::Connector(Connector::Airway("UN502".to_string())),
            Field15Element::Point(Point::Waypoint("JSY".to_string())),
            Field15Element::Connector(Connector::Direct),
            Field15Element::Point(Point::Waypoint("LIZAD".to_string())),
            Field15Element::Connector(Connector::Direct),
            Field15Element::Point(Point::Waypoint("MOPAT".to_string())),
            Field15Element::Connector(Connector::Direct),
            Field15Element::Point(Point::Waypoint("LUNIG".to_string())),
            Field15Element::Connector(Connector::Direct),
            Field15Element::Point(Point::Waypoint("MOMIN".to_string())),
            Field15Element::Connector(Connector::Direct),
            Field15Element::Point(Point::Waypoint("PIKIL".to_string())),
            Field15Element::Modifier(Modifier {
                speed: Some(Speed::Mach(84)),
                altitude: Some(Altitude::FlightLevel(380)),
                cruise_climb: false,
            }),
            Field15Element::Connector(Connector::Nat("NATD".to_string())),
            Field15Element::Point(Point::Waypoint("HOIST".to_string())),
            Field15Element::Modifier(Modifier {
                speed: Some(Speed::Knots(490)),
                altitude: Some(Altitude::FlightLevel(380)),
                cruise_climb: false,
            }),
            Field15Element::Connector(Connector::Airway("N756C".to_string())),
            Field15Element::Point(Point::Waypoint("ANATI".to_string())),
            Field15Element::Modifier(Modifier {
                speed: Some(Speed::Knots(441)),
                altitude: Some(Altitude::FlightLevel(340)),
                cruise_climb: false,
            }),
            Field15Element::Connector(Connector::Direct),
            Field15Element::Point(Point::Waypoint("MIVAX".to_string())),
            Field15Element::Connector(Connector::Direct),
            Field15Element::Point(Point::Waypoint("OBTEK".to_string())),
            Field15Element::Connector(Connector::Direct),
            Field15Element::Point(Point::Waypoint("XORLO".to_string())),
            Field15Element::Connector(Connector::Star("ROCKT2".to_string())),
        ]
    );
}

/// The latitude and longitude of a coordinate in degrees.
fn degrees(c: &Coordinate) -> (f64, f64) {
    let of = |a: &Angle| {
        let sign = if a.negative { -1.0 } else { 1.0 };
        (a.degrees as f64 + a.minutes as f64 / 60.0) * sign
    };
    (of(&c.latitude), of(&c.longitude))
}

#[test]
fn empty_route_has_no_elements() {
    assert_eq!(Field15Parser::parse(""), vec![]);
    assert_eq!(Field15Parser::parse(" \t\r\n "), vec![]);
    assert_eq!(Field15Parser::parse("/ //"), vec![]);
}

#[test]
fn nothing_after_truncation_counts() {
    let cut = Field15Parser::parse("N0450F100 POINT DCT POINT2 T");
    assert_eq!(Field15Parser::parse("N0450F100 POINT DCT POINT2 T EXTRA"), cut);
    assert_eq!(Field15Parser::parse("N0450F100 POINT DCT POINT2 T DCT LFPG ROXOG1H"), cut);
    assert_eq!(
        cut,
        vec![
            Field15Element::Modifier(Modifier {
                speed: Some(Speed::Knots(450)),
                altitude: Some(Altitude::FlightLevel(100)),
                cruise_climb: false,
            }),
            Field15Element::Point(Point::Waypoint("POINT".to_string())),
            Field15Element::Connector(Connector::Direct),
            Field15Element::Point(Point::Waypoint("POINT2".to_string())),
        ]
    );
    assert_eq!(Field15Parser::parse("T LFPG"), vec![]);
}

#[test]
fn truncation_hides_the_last_token_from_the_arrival_rule() {
    assert_eq!(
        Field15Parser::parse("LFPG ROXOG1H"),
        vec![
            Field15Element::Point(Point::Aerodrome("LFPG".to_string())),
            Field15Element::Connector(Connector::Star("ROXOG1H".to_string())),
        ]
    );
    assert_eq!(
        Field15Parser::parse("LFPG ROXOG1H T"),
        vec![
            Field15Element::Point(Point::Aerodrome("LFPG".to_string())),
            Field15Element::Connector(Connector::Airway("ROXOG1H".to_string())),
        ]
    );
}

#[test]
fn departure_comes_before_every_point() {
    let elements = Field15Parser::parse("N0456F340 DCT LACOU5A LACOU UM184 CNA ROXOG1H");
    let sid = elements
        .iter()
        .position(|e| matches!(e, Field15Element::Connector(Connector::Sid(_))))
        .unwrap();
    assert_eq!(sid, 2);
    assert!(elements[..sid].iter().all(|e| !matches!(
        e,
        Field15Element::Point(_)
            | Field15Element::Connector(Connector::Sid(_))
            | Field15Element::Connector(Connector::Star(_))
    )));
    assert_eq!(
        elements.last(),
        Some(&Field15Element::Connector(Connector::Star("ROXOG1H".to_string())))
    );
}

#[test]
fn lone_procedure_is_the_departure() {
    assert_eq!(
        Field15Parser::parse("LACOU5A"),
        vec![Field15Element::Connector(Connector::Sid("LACOU5A".to_string()))]
    );
}

#[test]
fn airway_may_come_before_the_departure() {
    assert_eq!(
        Field15Parser::parse("N0450F100 UM184 LACOU5A"),
        vec![
            Field15Element::Modifier(Modifier {
                speed: Some(Speed::Knots(450)),
                altitude: Some(Altitude::FlightLevel(100)),
                cruise_climb: false,
            }),
            Field15Element::Connector(Connector::Airway("UM184".to_string())),
            Field15Element::Connector(Connector::Sid("LACOU5A".to_string())),
        ]
    );
}

#[test]
fn after_direct_an_airway_name_is_a_point() {
    assert_eq!(
        Field15Parser::parse("LFPG DCT UM184 UM184"),
        vec![
            Field15Element::Point(Point::Aerodrome("LFPG".to_string())),
            Field15Element::Connector(Connector::Direct),
            Field15Element::Point(Point::Waypoint("UM184".to_string())),
            Field15Element::Connector(Connector::Airway("UM184".to_string())),
        ]
    );
}

#[test]
fn slash_does_not_end_the_effect_of_direct() {
    assert_eq!(
        Field15Parser::parse("DCT/L9"),
        vec![
            Field15Element::Connector(Connector::Direct),
            Field15Element::Point(Point::Waypoint("L9".to_string())),
        ]
    );
}

#[test]
fn tracks_are_connectors() {
    assert_eq!(
        Field15Parser::parse("LFPG NATZ1 PTS7 PTSA"),
        vec![
            Field15Element::Point(Point::Aerodrome("LFPG".to_string())),
            Field15Element::Connector(Connector::Nat("NATZ1".to_string())),
            Field15Element::Connector(Connector::Pts("PTS7".to_string())),
            Field15Element::Connector(Connector::Pts("PTSA".to_string())),
        ]
    );
}

#[test]
fn coordinate_without_longitude_is_dropped() {
    assert_eq!(
        Field15Parser::parse("LFPG 5430N EGLL"),
        vec![
            Field15Element::Point(Point::Aerodrome("LFPG".to_string())),
            Field15Element::Point(Point::Aerodrome("EGLL".to_string())),
        ]
    );
}

#[test]
fn coordinates_with_minutes() {
    assert_eq!(
        Field15Parser::parse_coordinate("5430N01020E"),
        Some(Coordinate {
            latitude: Angle { negative: false, degrees: 54, minutes: 30 },
            longitude: Angle { negative: false, degrees: 10, minutes: 20 },
        })
    );
    let c = Field15Parser::parse_coordinate("5430S01015W").unwrap();
    assert_eq!(degrees(&c), (-54.5, -10.25));
    let c = Field15Parser::parse_coordinate("02S001W").unwrap();
    assert_eq!(degrees(&c), (-2.0, -1.0));
    assert_eq!(Field15Parser::parse_coordinate("5430N"), None);
    assert_eq!(Field15Parser::parse_coordinate("543N010E"), None);
    assert_eq!(Field15Parser::parse_coordinate("54N10E"), None);
    assert_eq!(Field15Parser::parse_coordinate("5A30N01020E"), None);
    assert_eq!(Field15Parser::parse_coordinate("LACOU"), None);
}

#[test]
fn points_of_every_kind() {
    assert_eq!(Field15Parser::parse_point(""), None);
    assert_eq!(Field15Parser::parse_point("C"), Some(Point::Waypoint("C".to_string())));
    assert_eq!(Field15Parser::parse_point("LFPG"), Some(Point::Aerodrome("LFPG".to_string())));
    assert_eq!(Field15Parser::parse_point("LFP1"), Some(Point::Waypoint("LFP1".to_string())));
    assert_eq!(Field15Parser::parse_point("lfpg"), Some(Point::Waypoint("lfpg".to_string())));
    assert_eq!(Field15Parser::parse_point("62N010W"), Some(coords(62.0, -10.0)));
    assert_eq!(
        Field15Parser::parse_point("POINT360999"),
        Some(Point::BearingDistance {
            point: Box::new(Point::Waypoint("POINT".to_string())),
            bearing: 360,
            distance: 999,
        })
    );
    assert_eq!(
        Field15Parser::parse_point("POINT361000"),
        Some(Point::Waypoint("POINT361000".to_string()))
    );
    assert_eq!(
        Field15Parser::parse_point("point180060"),
        Some(Point::Waypoint("point180060".to_string()))
    );
    assert_eq!(
        Field15Parser::parse_point("5430N180060"),
        Some(Point::Waypoint("5430N180060".to_string()))
    );
    assert_eq!(
        Field15Parser::parse_point("5430N01020E090005"),
        Some(Point::BearingDistance {
            point: Box::new(Point::Coordinate(Coordinate {
                latitude: Angle { negative: false, degrees: 54, minutes: 30 },
                longitude: Angle { negative: false, degrees: 10, minutes: 20 },
            })),
            bearing: 90,
            distance: 5,
        })
    );
}

#[test]
fn text_that_is_not_ascii_is_taken_as_it_is() {
    assert_eq!(
        Field15Parser::parse("ÉCOLE DCT Zürich/Ω"),
        vec![
            Field15Element::Point(Point::Waypoint("ÉCOLE".to_string())),
            Field15Element::Connector(Connector::Direct),
            Field15Element::Point(Point::Waypoint("Zürich".to_string())),
            Field15Element::Point(Point::Waypoint("Ω".to_string())),
        ]
    );
    assert_eq!(Field15Parser::tokenize("é/è\tê"), vec!["é", "/", "è", "ê"]);
    assert!(Field15Parser::is_airway("L1é"));
    assert!(!Field15Parser::is_airway("L1ééé"));
    assert_eq!(
        Field15Parser::parse_point("É180060"),
        Some(Point::Waypoint("É180060".to_string()))
    );
}

#[test]
fn classify_follows_the_order_of_the_rules() {
    let star = Some(Field15Element::Connector(Connector::Star("ROXOG1H".to_string())));
    let sid = Some(Field15Element::Connector(Connector::Sid("ROXOG1H".to_string())));
    let airway = Some(Field15Element::Connector(Connector::Airway("ROXOG1H".to_string())));
    let point = Some(Field15Element::Point(Point::Waypoint("ROXOG1H".to_string())));
    assert_eq!(Field15Parser::classify("ROXOG1H", false, false, false), sid);
    assert_eq!(Field15Parser::classify("ROXOG1H", true, false, true), sid);
    assert_eq!(Field15Parser::classify("ROXOG1H", true, true, true), star);
    assert_eq!(Field15Parser::classify("ROXOG1H", false, true, true), point);
    assert_eq!(Field15Parser::classify("ROXOG1H", false, true, false), airway);
    assert_eq!(Field15Parser::classify("/", true, false, true), None);
    assert_eq!(
        Field15Parser::classify("VFR", false, false, true),
        Some(Field15Element::Connector(Connector::Vfr))
    );
    assert_eq!(
        Field15Parser::classify("N0450VFR", false, false, false),
        Some(Field15Element::Modifier(Modifier {
            speed: Some(Speed::Knots(450)),
            altitude: Some(Altitude::Vfr),
            cruise_climb: false,
        }))
    );
}

#[test]
fn long_route_is_parsed_token_by_token() {
    let mut route = String::from("N0450F100 LACOU5A");
    for _ in 0..20_000 {
        route.push_str(" LACOU UM184 DCT 62N010W/N0450F100");
    }
    route.push_str(" ROXOG1H");
    let elements = Field15Parser::parse(&route);
    assert_eq!(elements.len(), 2 + 5 * 20_000 + 1);
    assert_eq!(
        elements.last(),
        Some(&Field15Element::Connector(Connector::Star("ROXOG1H".to_string())))
    );
}

#[test]
fn elements_can_be_cloned() {
    let elements = Field15Parser::parse("N0450F100 LACOU5A 02S001W180060 DCT LFPG UM184");
    let copies: Vec<Field15Element> = elements.iter().map(|e| e.clone()).collect();
    assert_eq!(copies, elements);
    let point = Field15Parser::parse_point("WAYPOINT180060").unwrap();
    assert_eq!(point.duplicate(), point);
}

#[test]
fn level_alone_is_a_modifier() {
    assert_eq!(
        Field15Parser::parse("LFPG F340 LACOU/F360PLUS DCT EGLL"),
        vec![
            Field15Element::Point(Point::Aerodrome("LFPG".to_string())),
            Field15Element::Modifier(Modifier {
                speed: None,
                altitude: Some(Altitude::FlightLevel(340)),
                cruise_climb: false,
            }),
            Field15Element::Point(Point::Waypoint("LACOU".to_string())),
            Field15Element::Modifier(Modifier {
                speed: None,
                altitude: Some(Altitude::FlightLevel(360)),
                cruise_climb: true,
            }),
            Field15Element::Connector(Connector::Direct),
            Field15Element::Point(Point::Aerodrome("EGLL".to_string())),
        ]
    );
    assert_eq!(
        Field15Parser::classify("F340", false, false, false),
        Some(Field15Element::Modifier(Modifier {
            speed: None,
            altitude: Some(Altitude::FlightLevel(340)),
            cruise_climb: false,
        }))
    );
    assert_eq!(
        Field15Parser::parse("S1130 A0450 VFR"),
        vec![
            Field15Element::Modifier(Modifier {
                speed: None,
                altitude: Some(Altitude::MetricLevel(1130)),
                cruise_climb: false,
            }),
            Field15Element::Modifier(Modifier {
                speed: None,
                altitude: Some(Altitude::Altitude(450)),
                cruise_climb: false,
            }),
            Field15Element::Connector(Connector::Vfr),
        ]
    );
}
