//! GPGGA structured decoding: exact fixed-point values and errors.

use rtk_qxwz::Angle;
use rtk_qxwz::Decimal;
use rtk_qxwz::Gpgga;
use rtk_qxwz::GpggaParseError;
use rtk_qxwz::GpggaStatus;
use rtk_qxwz::parse_decimal;

const SAMPLE: &str =
    "$GPGGA,060220.00,3959.55874779,N,11619.61828897,E,1,17,1.6,60.1397,M,-9.2862,M,,*42";

#[test]
fn decode_sample_sentence() {
    let g = match Gpgga::from_str(SAMPLE) {
        Ok(g) => g,
        Err(_) => panic!("the sample sentence must decode"),
    };
    assert_eq!(g.utc, Decimal { mantissa: 6022000, scale: 2 });
    // 39 degrees 59.55874779 minutes: 39 * 60 * 10^8 + 5955874779
    assert_eq!(g.latitude, Angle { num: 239955874779, scale: 8 });
    // 116 degrees 19.61828897 minutes: 116 * 60 * 10^8 + 1961828897
    assert_eq!(g.longitude, Angle { num: 697961828897, scale: 8 });
    assert_eq!(g.status, GpggaStatus::SinglePoint);
    assert_eq!(g.satellite, 17);
    assert_eq!(g.hdop, Decimal { mantissa: 16, scale: 1 });
    assert_eq!(g.altitude, Decimal { mantissa: 601397, scale: 4 });
    assert_eq!(g.altitude_error, Decimal { mantissa: -92862, scale: 4 });
}

#[test]
fn south_and_west_negate() {
    let g = Gpgga::from_str("$GPGGA,1.0,0102.5,S,00102.5,W,4,8,1.0,10.0,M,1.0,M,,*00")
        .unwrap_or_else(|_| panic!("must decode"));
    // 1 degree 02.5 minutes south: -(1 * 60 * 10 + 25)
    assert_eq!(g.latitude, Angle { num: -625, scale: 1 });
    assert_eq!(g.longitude, Angle { num: -625, scale: 1 });
    assert_eq!(g.status, GpggaStatus::RtkFixed);
}

#[test]
fn wrong_head_is_benign() {
    let r = Gpgga::from_str("$GPRMC,060220.00,A*00");
    assert!(matches!(r, Err(GpggaParseError::WrongHead)));
    let r = Gpgga::from_str("");
    assert!(matches!(r, Err(GpggaParseError::WrongHead)));
}

#[test]
fn missing_field_is_reported() {
    let r = Gpgga::from_str("$GPGGA,060220.00,3959.5,N");
    match r {
        Err(GpggaParseError::LackOfField(name)) => assert_eq!(name, "longitude"),
        _ => panic!("expected a missing longitude"),
    }
}

#[test]
fn malformed_fields_are_reported() {
    let r = Gpgga::from_str("$GPGGA,abc,3959.5,N,11619.6,E,1,17,1.6,60.1,M,-9.2,M,,*42");
    match r {
        Err(GpggaParseError::FailToParse(name)) => assert_eq!(name, "utc"),
        _ => panic!("expected an unparsable utc"),
    }
    // a degree field whose point leaves no room for two minute digits
    let r = Gpgga::from_str("$GPGGA,1.0,.5,N,11619.6,E,1,17,1.6,60.1,M,-9.2,M,,*42");
    match r {
        Err(GpggaParseError::FailToParse(name)) => assert_eq!(name, "latitude"),
        _ => panic!("expected an unparsable latitude"),
    }
    let r = Gpgga::from_str("$GPGGA,1.0,0102.5,X,00102.5,W,4,8,1.0,10.0,M,1.0,M,,*00");
    match r {
        Err(GpggaParseError::FailToParse(name)) => assert_eq!(name, "latitude_dir"),
        _ => panic!("expected a bad latitude direction"),
    }
    let r = Gpgga::from_str("$GPGGA,1.0,0102.5,N,00102.5,E,9,8,1.0,10.0,M,1.0,M,,*00");
    match r {
        Err(GpggaParseError::FailToParse(name)) => assert_eq!(name, "status"),
        _ => panic!("expected a bad status"),
    }
    let r = Gpgga::from_str("$GPGGA,1.0,0102.5,N,00102.5,E,4,8,1.0,10.0,K,1.0,M,,*00");
    match r {
        Err(GpggaParseError::FailToParse(name)) => assert_eq!(name, "altitude_unit"),
        _ => panic!("expected a bad altitude unit"),
    }
}

#[test]
fn status_codes_decode() {
    assert_eq!(GpggaStatus::from_str("0"), Ok(GpggaStatus::Invalid));
    assert_eq!(GpggaStatus::from_str("1"), Ok(GpggaStatus::SinglePoint));
    assert_eq!(GpggaStatus::from_str("2"), Ok(GpggaStatus::Differential));
    assert_eq!(GpggaStatus::from_str("3"), Ok(GpggaStatus::Pps));
    assert_eq!(GpggaStatus::from_str("4"), Ok(GpggaStatus::RtkFixed));
    assert_eq!(GpggaStatus::from_str("5"), Ok(GpggaStatus::RtkFloat));
    assert_eq!(GpggaStatus::from_str("6"), Ok(GpggaStatus::DeadReckoning));
    assert_eq!(GpggaStatus::from_str("7"), Ok(GpggaStatus::ManualInput));
    assert_eq!(GpggaStatus::from_str("8"), Ok(GpggaStatus::Ppp));
    assert_eq!(GpggaStatus::from_str("9"), Err(()));
    assert_eq!(GpggaStatus::from_str("x"), Err(()));
    assert_eq!(GpggaStatus::from_str(""), Err(()));
    assert_eq!(GpggaStatus::default(), GpggaStatus::Invalid);
}

#[test]
fn decimal_fields_parse_exactly() {
    let chars: Vec<char> = "-9.2862".chars().collect();
    assert_eq!(parse_decimal(&chars), Some(Decimal { mantissa: -92862, scale: 4 }));
    let chars: Vec<char> = "+1.5".chars().collect();
    assert_eq!(parse_decimal(&chars), Some(Decimal { mantissa: 15, scale: 1 }));
    let chars: Vec<char> = ".5".chars().collect();
    assert_eq!(parse_decimal(&chars), Some(Decimal { mantissa: 5, scale: 1 }));
    let chars: Vec<char> = "5.".chars().collect();
    assert_eq!(parse_decimal(&chars), Some(Decimal { mantissa: 5, scale: 0 }));
    let chars: Vec<char> = "060220.00".chars().collect();
    assert_eq!(parse_decimal(&chars), Some(Decimal { mantissa: 6022000, scale: 2 }));
    let chars: Vec<char> = ".".chars().collect();
    assert_eq!(parse_decimal(&chars), None);
    let chars: Vec<char> = "".chars().collect();
    assert_eq!(parse_decimal(&chars), None);
    let chars: Vec<char> = "1.2.3".chars().collect();
    assert_eq!(parse_decimal(&chars), None);
    let chars: Vec<char> = "1e3".chars().collect();
    assert_eq!(parse_decimal(&chars), None);
    // a mantissa beyond the i64 range is rejected, not wrapped
    let chars: Vec<char> = "99999999999999999999".chars().collect();
    assert_eq!(parse_decimal(&chars), None);
}
