//! Supervisor lifecycle and bridge routing scenarios.

use rtk_qxwz::Bridge;
use rtk_qxwz::Buffer;
use rtk_qxwz::Emission;
use rtk_qxwz::NmeaLine;
use rtk_qxwz::Phase;
use rtk_qxwz::SerialStep;
use rtk_qxwz::Supervisor;
use rtk_qxwz::classify;
use rtk_qxwz::serial_step;
use rtk_qxwz::xor;
use rtk_qxwz::LINE_RECEIVE_TIMEOUT_MS;

#[test]
fn supervisor_connects_on_the_first_working_key() {
    let mut sup: Supervisor<String> = Supervisor::new();
    assert_eq!(sup.phase, Phase::Enumerating);
    let emit = sup.on_keys(vec!["dead".to_string(), "live".to_string()]);
    assert_eq!(emit, None);
    assert_eq!(sup.phase, Phase::Opening);
    assert_eq!(sup.current_key().as_str(), "dead");
    // the first key fails to open: move on without an emission
    let emit = sup.on_open_result(false);
    assert_eq!(emit, None);
    assert_eq!(sup.current_key().as_str(), "live");
    // the second opens: Connected, no starvation
    let emit = sup.on_open_result(true);
    assert_eq!(emit, Some(Emission::Connected));
    assert_eq!(sup.phase, Phase::Running);
    // the driver's loop ends: Disconnected, back to enumeration
    let emit = sup.on_join_end(false);
    assert_eq!(emit, Some(Emission::Disconnected));
    assert_eq!(sup.phase, Phase::Enumerating);
}

#[test]
fn supervisor_fails_the_round_when_every_key_fails() {
    let mut sup: Supervisor<u32> = Supervisor::new();
    assert_eq!(sup.on_keys(vec![1, 2]), None);
    assert_eq!(sup.on_open_result(false), None);
    assert_eq!(sup.on_open_result(false), Some(Emission::ConnectFailed));
    assert_eq!(sup.phase, Phase::Enumerating);
}

#[test]
fn supervisor_fails_at_once_without_keys() {
    let mut sup: Supervisor<u32> = Supervisor::new();
    assert_eq!(sup.on_keys(Vec::new()), Some(Emission::ConnectFailed));
    assert_eq!(sup.phase, Phase::Enumerating);
}

fn make_sentence(body: &[u8]) -> Vec<u8> {
    let cs = xor(body);
    let mut v = Vec::new();
    v.push(b'$');
    v.extend_from_slice(body);
    v.push(b'*');
    v.extend_from_slice(format!("{cs:02X}").as_bytes());
    v
}

#[test]
fn bridge_degraded_correction_only() {
    // the correction side connects, the serial side never does:
    // correction data is dropped silently
    let mut bridge: Bridge<u32, u32> = Bridge::new();
    bridge.on_correction_connected(7);
    assert!(bridge.downlink_target().is_none());
    // and a serial line with no uplink is not forwarded either way
    bridge.on_correction_disconnected();
    let sentence = make_sentence(b"GPGGA,1,2");
    let (line, cs) = classify(&sentence);
    assert!(bridge.uplink_frame(&line, cs).is_none());
}

#[test]
fn bridge_forwards_gpgga_uplink() {
    let mut bridge: Bridge<u32, u32> = Bridge::new();
    bridge.on_correction_connected(7);
    let sentence = make_sentence(b"GAGGA,data,1");
    let (line, cs) = classify(&sentence);
    let (sender, bytes) = bridge.uplink_frame(&line, cs).expect("uplink present");
    assert_eq!(*sender, 7);
    let mut expected = b"$GPGGA,data,1*".to_vec();
    expected.extend_from_slice(format!("{:02X}", xor(b"GAGGA,data,1")).as_bytes());
    expected.extend_from_slice(b"\r\n");
    assert_eq!(bytes, expected);
    // lines of other types are not forwarded uplink
    let other = make_sentence(b"GPRMC,1");
    let (line, cs) = classify(&other);
    assert!(bridge.uplink_frame(&line, cs).is_none());
}

#[test]
fn bridge_sides_are_independent() {
    let mut bridge: Bridge<u32, u32> = Bridge::new();
    bridge.on_correction_connected(1);
    bridge.on_serial_connected(2);
    bridge.on_correction_disconnected();
    // the serial slot survives the correction side's disconnect
    assert_eq!(bridge.downlink_target(), Some(&2));
    bridge.on_serial_disconnected();
    assert!(bridge.downlink_target().is_none());
}

#[test]
fn serial_step_emits_with_last_read_time() {
    let mut buffer: Buffer<256> = Buffer::new();
    let sentence = make_sentence(b"GPGGA,060220.00,1.0,N");
    let room = buffer.to_write();
    assert!(room >= sentence.len());
    buffer.extend(&sentence);
    match serial_step(&mut buffer, 1000, 900) {
        SerialStep::Line(raw, line, cs, t) => {
            assert_eq!(raw, sentence);
            assert!(matches!(line, NmeaLine::GPGGA(_, _)));
            assert_eq!(cs, xor(b"GPGGA,060220.00,1.0,N"));
            assert_eq!(t, 900);
        },
        other => panic!("expected a line, got {other:?}"),
    }
}

#[test]
fn serial_step_times_out_in_silence() {
    let mut buffer: Buffer<256> = Buffer::new();
    // the last non-empty read is longer than the receive timeout ago
    match serial_step(&mut buffer, 10000, 10000 - LINE_RECEIVE_TIMEOUT_MS - 1) {
        SerialStep::TimedOut => {},
        other => panic!("expected a timeout, got {other:?}"),
    }
    // inside the window the driver keeps reading
    match serial_step(&mut buffer, 10000, 10000 - LINE_RECEIVE_TIMEOUT_MS) {
        SerialStep::Read => {},
        other => panic!("expected a read, got {other:?}"),
    }
}
