//! Framer behaviour on real byte streams.

use rtk_qxwz::Buffer;
use rtk_qxwz::xor;

const MSG1: &[u8] =
    b"123456$GPGGA,060220.00,3959.55874779,N,11619.61828897,E,1,17,1.6,60.1397,M,-9.2862,M,,*42\r\n";

const SENTENCE1: &[u8] =
    b"$GPGGA,060220.00,3959.55874779,N,11619.61828897,E,1,17,1.6,60.1397,M,-9.2862,M,,*42";

fn feed<const LEN: usize>(buffer: &mut Buffer<LEN>, bytes: &[u8]) {
    let room = buffer.to_write();
    assert!(room >= bytes.len(), "window too small for this chunk");
    buffer.extend(bytes);
}

#[test]
fn test_write() {
    const LEN: usize = 512;
    let mut buffer = Buffer::<LEN>::new();
    let len = buffer.to_write();
    assert_eq!(LEN, len);

    buffer.extend(MSG1);
    assert_eq!(0, buffer.p_read);
    assert_eq!(0, buffer.p_star);
    assert_eq!(MSG1.len(), buffer.p_write);

    let len = buffer.to_write();
    assert_eq!(LEN - buffer.p_write, len);
}

#[test]
fn junk_then_valid_gpgga() {
    let mut buffer = Buffer::<512>::new();
    feed(&mut buffer, MSG1);
    let parsed = buffer.parse().expect("one sentence expected");
    assert_eq!(parsed.as_slice(), SENTENCE1);
    // the checksum of the body between `$` and `*` is 0x42
    let body = &SENTENCE1[1..SENTENCE1.len() - 3];
    assert_eq!(0x42, xor(body));
    assert!(buffer.parse().is_none());
}

#[test]
fn corrupt_checksum_is_dropped() {
    let mut corrupt = MSG1.to_vec();
    let star = corrupt.len() - 4; // the last hex digit: *42 -> *43
    corrupt[star] = b'3';
    let mut buffer = Buffer::<512>::new();
    feed(&mut buffer, &corrupt);
    assert!(buffer.parse().is_none());
    assert!(buffer.parse().is_none());
    // after the corrupt frame is skipped the window drains empty
    let room = buffer.to_write();
    assert_eq!(room, 512);
    assert_eq!(buffer.p_read, 0);
    assert_eq!(buffer.p_write, 0);
}

#[test]
fn two_back_to_back_sentences() {
    let mut stream = SENTENCE1.to_vec();
    let second = make_sentence(b"GPGGA,000001.00,0000.0,N,00000.0,E,1,4,1.0,0.0,M,0.0,M,,");
    stream.extend_from_slice(&second);
    let mut buffer = Buffer::<512>::new();
    feed(&mut buffer, &stream);
    let first = buffer.parse().expect("first sentence");
    assert_eq!(first.as_slice(), SENTENCE1);
    let next = buffer.parse().expect("second sentence");
    assert_eq!(next, second);
    assert!(buffer.parse().is_none());
}

#[test]
fn junk_interleaving_changes_nothing() {
    let a = make_sentence(b"GPGGA,1,2,3");
    let b = make_sentence(b"GPFPD,4,5,6");

    let mut plain = Buffer::<512>::new();
    let mut stream = a.clone();
    stream.extend_from_slice(&b);
    feed(&mut plain, &stream);
    let p1 = plain.parse().expect("first");
    let p2 = plain.parse().expect("second");
    assert!(plain.parse().is_none());

    let mut noisy = Buffer::<512>::new();
    let mut stream = b"\r\nnoise!".to_vec();
    stream.extend_from_slice(&a);
    stream.extend_from_slice(b"123 more junk \x00\x7f");
    stream.extend_from_slice(&b);
    stream.extend_from_slice(b"trailing");
    feed(&mut noisy, &stream);
    let q1 = noisy.parse().expect("first");
    let q2 = noisy.parse().expect("second");
    assert!(noisy.parse().is_none());

    assert_eq!(p1, q1);
    assert_eq!(p2, q2);
}

#[test]
fn bounded_memory_after_none() {
    // an unterminated sentence larger than the window is dropped, and
    // after every parse that yields nothing there is room to read on
    let mut buffer = Buffer::<8>::new();
    let stream = b"$ABCDEFGHIJKLMNOPQRSTUVWXYZ";
    let mut offset = 0;
    while offset < stream.len() {
        let room = buffer.to_write();
        assert!(room >= 1, "no room left after a fruitless parse");
        let take = room.min(stream.len() - offset);
        buffer.extend(&stream[offset..offset + take]);
        offset += take;
        while let Some(sentence) = buffer.parse() {
            panic!("no sentence should complete here: {sentence:?}");
        }
    }
    assert!(buffer.p_write <= 8);
}

#[test]
fn lowercase_hex_checksum_accepted() {
    let body = b"GPGGA,a,b";
    let cs = xor(body);
    let mut sentence = Vec::new();
    sentence.push(b'$');
    sentence.extend_from_slice(body);
    sentence.push(b'*');
    sentence.extend_from_slice(format!("{cs:02x}").as_bytes());
    let mut buffer = Buffer::<64>::new();
    feed(&mut buffer, &sentence);
    let parsed = buffer.parse().expect("lowercase hex is valid");
    assert_eq!(parsed, sentence);
}

#[test]
fn proprietary_start_is_skipped() {
    let mut stream = b"#PROPRIETARY*00".to_vec();
    stream.extend_from_slice(SENTENCE1);
    let mut buffer = Buffer::<512>::new();
    feed(&mut buffer, &stream);
    let parsed = buffer.parse().expect("the $ sentence after the # frame");
    assert_eq!(parsed.as_slice(), SENTENCE1);
    assert!(buffer.parse().is_none());
}

#[test]
fn overlapping_candidate_resolved_by_skipping() {
    // a stray `$` before the real sentence
    let mut stream = b"$GP".to_vec();
    stream.extend_from_slice(SENTENCE1);
    let mut buffer = Buffer::<512>::new();
    feed(&mut buffer, &stream);
    let parsed = buffer.parse().expect("the embedded sentence");
    assert_eq!(parsed.as_slice(), SENTENCE1);
}

fn make_sentence(body: &[u8]) -> Vec<u8> {
    let cs = xor(body);
    let mut v = Vec::new();
    v.push(b'$');
    v.extend_from_slice(body);
    v.push(b'*');
    v.extend_from_slice(format!("{cs:02X}").as_bytes());
    v
}
