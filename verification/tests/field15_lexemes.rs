use thrust::data::field15::{Altitude, Field15Parser, Modifier, Speed};

#[test]
fn test_speed_parsing() {
    assert_eq!(Field15Parser::parse_speed("N0456"), Some(Speed::Knots(456)));
    assert_eq!(Field15Parser::parse_speed("M079"), Some(Speed::Mach(79)));
    assert_eq!(Field15Parser::parse_speed("K0893"), Some(Speed::KilometersPerHour(893)));
}

#[test]
fn test_altitude_parsing() {
    assert_eq!(Field15Parser::parse_altitude("F340"), Some(Altitude::FlightLevel(340)));
    assert_eq!(
        Field15Parser::parse_altitude("S1130"),
        Some(Altitude::MetricLevel(1130))
    );
}

#[test]
fn test_coordinate_detection() {
    assert!(Field15Parser::is_coordinate("62N010W"));
    assert!(Field15Parser::is_coordinate("5430N"));
    assert!(Field15Parser::is_coordinate("53N100W"));
    assert!(!Field15Parser::is_coordinate("LACOU"));
}

#[test]
fn test_procedure_detection() {
    assert!(Field15Parser::is_procedure("LACOU5A"));
    assert!(Field15Parser::is_procedure("ROXOG1H"));
    assert!(Field15Parser::is_procedure("RANUX3D"));
    assert!(!Field15Parser::is_procedure("LACOU"));
    assert!(!Field15Parser::is_procedure("CNA"));
}

#[test]
fn test_airway_detection() {
    assert!(Field15Parser::is_airway("UM184"));
    assert!(Field15Parser::is_airway("UN863"));
    assert!(Field15Parser::is_airway("L738"));
    assert!(Field15Parser::is_airway("A308"));
    assert!(!Field15Parser::is_airway("DCT"));
    assert!(!Field15Parser::is_airway("LACOU"));
}

#[test]
fn test_tokenization() {
    let tokens = Field15Parser::tokenize("N0450F100 POINT/M079F200 DCT");
    assert_eq!(tokens, vec!["N0450F100", "POINT", "/", "M079F200", "DCT"]);
}

#[test]
fn test_tokenization_multiple_whitespace() {
    let tokens = Field15Parser::tokenize("A  B\tC\nD\rE");
    assert_eq!(tokens, vec!["A", "B", "C", "D", "E"]);
}

#[test]
fn test_coordinate_validation() {
    assert!(Field15Parser::is_coordinate("5020N"));
    assert!(Field15Parser::is_coordinate("5020N00130W"));
    assert!(Field15Parser::is_coordinate("50N005W"));
    assert!(Field15Parser::is_coordinate("00N000E"));

    assert!(!Field15Parser::is_coordinate("N5020"));
    assert!(!Field15Parser::is_coordinate("5020W00130N"));
    assert!(!Field15Parser::is_coordinate("ABC"));
    assert!(!Field15Parser::is_coordinate("50N"));
}

#[test]
fn test_nat_track_is_nat() {
    assert!(Field15Parser::is_nat("NATD"));
    assert!(Field15Parser::is_nat("NATA"));
    assert!(Field15Parser::is_nat("NATZ"));
    assert!(Field15Parser::is_nat("NATZ1"));
    assert!(!Field15Parser::is_nat("NAT1"));
    assert!(!Field15Parser::is_nat("NAT"));
}

#[test]
fn speeds_are_exact() {
    assert_eq!(Field15Parser::parse_speed("N9999"), Some(Speed::Knots(9999)));
    assert_eq!(Field15Parser::parse_speed("M999"), Some(Speed::Mach(999)));
    assert_eq!(Field15Parser::parse_speed("M000"), Some(Speed::Mach(0)));
    assert_eq!(Field15Parser::parse_speed("K0000"), Some(Speed::KilometersPerHour(0)));
    assert_eq!(Field15Parser::parse_speed("N045"), None);
    assert_eq!(Field15Parser::parse_speed("N04567"), None);
    assert_eq!(Field15Parser::parse_speed("M0790"), None);
    assert_eq!(Field15Parser::parse_speed("N+456"), None);
    assert_eq!(Field15Parser::parse_speed("X0456"), None);
    assert_eq!(Field15Parser::parse_speed("n0456"), None);
    assert_eq!(Field15Parser::parse_speed(""), None);
}

#[test]
fn mach_is_held_in_hundredths() {
    match Field15Parser::parse_speed("M079") {
        Some(Speed::Mach(hundredths)) => assert_eq!(hundredths as f32 / 100.0, 0.79),
        other => panic!("not a Mach number: {:?}", other),
    }
}

#[test]
fn altitudes_are_exact() {
    assert_eq!(Field15Parser::parse_altitude("VFR"), Some(Altitude::Vfr));
    assert_eq!(Field15Parser::parse_altitude("A0450"), Some(Altitude::Altitude(450)));
    assert_eq!(Field15Parser::parse_altitude("M0825"), Some(Altitude::MetricAltitude(825)));
    assert_eq!(Field15Parser::parse_altitude("F3400"), None);
    assert_eq!(Field15Parser::parse_altitude("S113"), None);
    assert_eq!(Field15Parser::parse_altitude("F34A"), None);
    assert_eq!(Field15Parser::parse_altitude("vfr"), None);
    assert_eq!(Field15Parser::parse_altitude(""), None);
}

#[test]
fn modifiers_need_a_level() {
    assert_eq!(
        Field15Parser::parse_modifier("N0456F340"),
        Some(Modifier {
            speed: Some(Speed::Knots(456)),
            altitude: Some(Altitude::FlightLevel(340)),
            cruise_climb: false,
        })
    );
    assert_eq!(
        Field15Parser::parse_modifier("M079F200PLUS"),
        Some(Modifier {
            speed: Some(Speed::Mach(79)),
            altitude: Some(Altitude::FlightLevel(200)),
            cruise_climb: true,
        })
    );
    assert_eq!(
        Field15Parser::parse_modifier("K0893S1130"),
        Some(Modifier {
            speed: Some(Speed::KilometersPerHour(893)),
            altitude: Some(Altitude::MetricLevel(1130)),
            cruise_climb: false,
        })
    );
    assert_eq!(
        Field15Parser::parse_modifier("S1130"),
        Some(Modifier { speed: None, altitude: Some(Altitude::MetricLevel(1130)), cruise_climb: false })
    );
    assert_eq!(
        Field15Parser::parse_modifier("A0450PLUS"),
        Some(Modifier { speed: None, altitude: Some(Altitude::Altitude(450)), cruise_climb: true })
    );
    assert_eq!(Field15Parser::parse_modifier("N0456"), None);
    assert_eq!(Field15Parser::parse_modifier("M079"), None);
    assert_eq!(
        Field15Parser::parse_modifier("F340"),
        Some(Modifier { speed: None, altitude: Some(Altitude::FlightLevel(340)), cruise_climb: false })
    );
    assert_eq!(
        Field15Parser::parse_modifier("F340PLUS"),
        Some(Modifier { speed: None, altitude: Some(Altitude::FlightLevel(340)), cruise_climb: true })
    );
    assert_eq!(
        Field15Parser::parse_modifier("F000"),
        Some(Modifier { speed: None, altitude: Some(Altitude::FlightLevel(0)), cruise_climb: false })
    );
    assert_eq!(Field15Parser::parse_modifier("F34"), None);
    assert_eq!(Field15Parser::parse_modifier("F34A"), None);
    assert_eq!(Field15Parser::parse_modifier("F3400"), None);
    assert_eq!(Field15Parser::parse_modifier("VFRPLUS"), None);
    assert_eq!(Field15Parser::parse_modifier("M079PLUS"), None);
    assert_eq!(Field15Parser::parse_modifier("M0825"), None);
    assert_eq!(Field15Parser::parse_modifier("VFR"), None);
    assert_eq!(Field15Parser::parse_modifier("PLUS"), None);
    assert_eq!(Field15Parser::parse_modifier("N0456F34"), None);
    assert_eq!(Field15Parser::parse_modifier("LACOU"), None);
}

#[test]
fn procedures_have_one_of_the_shapes() {
    for t in ["ABC1D", "ABC12D", "ABCDE1", "ABCDE12", "ABCD1E", "ABCDE1F", "ABCDEF1G", "ABCDE12F"] {
        assert!(Field15Parser::is_procedure(t), "{}", t);
    }
    for t in ["", "AB1C", "ABC1", "ABC123D", "ABCD12", "ABCDEFG1H", "ABCDEF12G", "abc1d", "ABC1d", "1ABCD"] {
        assert!(!Field15Parser::is_procedure(t), "{}", t);
    }
}

#[test]
fn airways_have_a_prefix_and_a_digit() {
    for t in ["L1", "UN863", "UW1", "Z1234AB", "N756C", "B9"] {
        assert!(Field15Parser::is_airway(t), "{}", t);
    }
    for t in ["L", "C1", "UC1", "U1", "UM", "NATA1", "PTS1", "PTSA", "L1234567", "1L", "l1"] {
        assert!(!Field15Parser::is_airway(t), "{}", t);
    }
}

#[test]
fn pacific_tracks() {
    assert!(Field15Parser::is_pts("PTS0"));
    assert!(Field15Parser::is_pts("PTSZ"));
    assert!(!Field15Parser::is_pts("PTS"));
    assert!(!Field15Parser::is_pts("PTSa"));
    assert!(!Field15Parser::is_pts("PTS12"));
    assert!(!Field15Parser::is_pts("NATA"));
}

#[test]
fn tokens_are_never_empty() {
    assert_eq!(Field15Parser::tokenize(""), Vec::<&str>::new());
    assert_eq!(Field15Parser::tokenize("  \t\n"), Vec::<&str>::new());
    assert_eq!(Field15Parser::tokenize("//"), vec!["/", "/"]);
    assert_eq!(Field15Parser::tokenize("A/ /B/"), vec!["A", "/", "/", "B", "/"]);
    assert_eq!(Field15Parser::tokenize(" A"), vec!["A"]);
    assert_eq!(Field15Parser::tokenize("A "), vec!["A"]);
}
