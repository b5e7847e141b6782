//! Classifier and rebuild behaviour.

use rtk_qxwz::NmeaLine;
use rtk_qxwz::classify;
use rtk_qxwz::rebuild_nema;
use rtk_qxwz::uplink_line;
use rtk_qxwz::xor;

fn make_sentence(body: &[u8]) -> Vec<u8> {
    let cs = xor(body);
    let mut v = Vec::new();
    v.push(b'$');
    v.extend_from_slice(body);
    v.push(b'*');
    v.extend_from_slice(format!("{cs:02X}").as_bytes());
    v
}

#[test]
fn classify_gpgga_splits_head_and_tail() {
    let sentence = make_sentence(b"GPGGA,060220.00,3959.5,N");
    let (line, cs) = classify(&sentence);
    assert_eq!(cs, xor(b"GPGGA,060220.00,3959.5,N"));
    match line {
        NmeaLine::GPGGA(head, tail) => {
            assert_eq!(head, b"$GPGGA".to_vec());
            let expected_tail = &sentence[7..];
            assert_eq!(tail, expected_tail.to_vec());
        },
        other => panic!("expected a GGA line, got {other:?}"),
    }
}

#[test]
fn classify_accepts_other_gga_talkers() {
    // a board with a non-standard talker id still produces a GGA line
    let sentence = make_sentence(b"GAGGA,1,2,3");
    let (line, _) = classify(&sentence);
    assert!(matches!(line, NmeaLine::GPGGA(_, _)));
}

#[test]
fn classify_gpfpd_and_gphpd() {
    let fpd = make_sentence(b"GPFPD,1,2");
    let (line, _) = classify(&fpd);
    match line {
        NmeaLine::GPFPD(body) => assert_eq!(body, fpd[7..].to_vec()),
        other => panic!("expected GPFPD, got {other:?}"),
    }
    let hpd = make_sentence(b"GPHPD,9");
    let (line, _) = classify(&hpd);
    assert!(matches!(line, NmeaLine::GPHPD(_)));
}

#[test]
fn classify_other_keeps_raw() {
    let rmc = make_sentence(b"GPRMC,1,2");
    let (line, _) = classify(&rmc);
    match line {
        NmeaLine::Other(raw) => assert_eq!(raw, rmc),
        other => panic!("expected Other, got {other:?}"),
    }
    let no_comma = make_sentence(b"PING");
    let (line, _) = classify(&no_comma);
    assert!(matches!(line, NmeaLine::Other(_)));
}

#[test]
fn rebuild_round_trip_reproduces_canonical_form() {
    // a valid sentence with lower-case checksum digits
    let body = b"GPGGA,060220.00,3959.5,N,11619.6,E,1,17,1.6,60.1,M,-9.2,M,,";
    let cs = xor(body);
    let mut sentence = Vec::new();
    sentence.push(b'$');
    sentence.extend_from_slice(body);
    sentence.push(b'*');
    sentence.extend_from_slice(format!("{cs:02x}").as_bytes());

    let head = b"GPGGA";
    let tail = &sentence[7..]; // after the first comma, `*hh` included
    let rebuilt = rebuild_nema(head, tail, cs);

    // canonical: the same bytes with upper-case checksum digits
    let mut canonical = sentence.clone();
    let n = canonical.len();
    canonical[n - 2..].copy_from_slice(format!("{cs:02X}").as_bytes());
    assert_eq!(rebuilt, canonical);
}

#[test]
fn rebuild_without_star_suffix() {
    let rebuilt = rebuild_nema(b"GPGGA", b"1,2,3", 0xAB);
    assert_eq!(rebuilt, b"$GPGGA,1,2,3*AB".to_vec());
}

#[test]
fn rebuild_rewrites_talker_id() {
    // what the uplink does: a GAGGA line re-emitted as GPGGA
    let sentence = make_sentence(b"GAGGA,data,1");
    let (line, cs) = classify(&sentence);
    let tail = match line {
        NmeaLine::GPGGA(_, tail) => tail,
        other => panic!("expected a GGA line, got {other:?}"),
    };
    let rebuilt = rebuild_nema(b"GPGGA", &tail, cs);
    let mut expected = b"$GPGGA,data,1*".to_vec();
    expected.extend_from_slice(format!("{:02X}", xor(b"GAGGA,data,1")).as_bytes());
    assert_eq!(rebuilt, expected);
}

#[test]
fn uplink_line_appends_crlf() {
    let bytes = uplink_line(b"1,2,3", 0x05);
    assert_eq!(bytes, b"$GPGGA,1,2,3*05\r\n".to_vec());
}
