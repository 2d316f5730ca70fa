//! Digests, base64, text and WebSocket frames.
use loft_net::base64::base64;
use loft_net::frame::{
    decode_frame, encode_masked, encode_plain, Decoded, OP_BINARY, OP_CLOSE, OP_PING, OP_PONG,
    OP_TEXT,
};
use loft_net::server::{ws_read_frame_detailed, ReadOutcome, ReadStep};
use loft_net::sha1::sha1;
use loft_net::text::{
    chars_of, cut_last, cut_once, decimal_string, equal_ignoring_case, has_text, read_number,
    split_at_char, split_lines, split_words, string_of, trimmed,
};

fn hex(bytes: &[u8]) -> String {
    bytes.iter().map(|b| format!("{:02x}", b)).collect()
}

fn pieces(v: Vec<Vec<char>>) -> Vec<String> {
    v.iter().map(|p| string_of(p)).collect()
}

#[test]
fn digests_are_the_published_ones() {
    assert_eq!(hex(&sha1(b"")), "da39a3ee5e6b4b0d3255bfef95601890afd80709");
    assert_eq!(hex(&sha1(b"abc")), "a9993e364706816aba3e25717850c26c9cd0d89d");
    assert_eq!(
        hex(&sha1(b"abcdbcdecdefdefgefghfghighijhijkijkljklmklmnlmnomnopnopq")),
        "84983e441c3bd26ebaae4aa1f95129e5e54670f1"
    );
    assert_eq!(
        hex(&sha1(&vec![b'a'; 1_000_000])),
        "34aa973cd4c4daa4f61eeb2bdbad27316534016f"
    );
}

#[test]
fn base64_fills_up_the_last_group() {
    for (data, text) in [
        ("", ""),
        ("f", "Zg=="),
        ("fo", "Zm8="),
        ("foo", "Zm9v"),
        ("foob", "Zm9vYg=="),
        ("fooba", "Zm9vYmE="),
        ("foobar", "Zm9vYmFy"),
    ] {
        assert_eq!(base64(data.as_bytes()), text);
    }
    // No two inputs share an encoding.
    let mut seen = std::collections::HashSet::new();
    for a in 0..=255u8 {
        assert!(seen.insert(base64(&[a])));
        for b in 0..=255u8 {
            assert!(seen.insert(base64(&[a, b])));
        }
    }
    assert_eq!(base64(&[0xFB, 0xFF, 0xBF]), "+/+/");
}

#[test]
fn text_is_taken_apart() {
    assert_eq!(string_of(trimmed(&chars_of(" \t a b\u{a0}\r\n"))), "a b");
    assert_eq!(pieces(split_at_char(&chars_of("a\n\nb"), '\n')), ["a", "", "b"]);
    assert_eq!(pieces(split_lines(&chars_of("a\r\nb\rc\n\r\n"))), ["a", "b\rc\n", ""]);
    assert_eq!(pieces(split_words(&chars_of("  GET\t/a  HTTP/1.1 "))), ["GET", "/a", "HTTP/1.1"]);
    let line = chars_of("k: v: w");
    let (k, v) = cut_once(&line, ':').unwrap();
    assert_eq!((string_of(k), string_of(v)), ("k".to_string(), " v: w".to_string()));
    let (k, v) = cut_last(&line, ':').unwrap();
    assert_eq!((string_of(k), string_of(v)), ("k: v".to_string(), " w".to_string()));
    assert!(cut_once(&line, '#').is_none());
    assert!(cut_last(&line, '#').is_none());
    assert!(equal_ignoring_case(&chars_of("Content-LENGTH"), &chars_of("content-length")));
    assert!(!equal_ignoring_case(&chars_of("É"), &chars_of("é")));
    assert!(has_text(&chars_of("abcabd"), &chars_of("abd")));
    assert!(!has_text(&chars_of("abc"), &chars_of("abcd")));
}

#[test]
fn numbers_are_read_and_written() {
    assert_eq!(decimal_string(0), "0");
    assert_eq!(decimal_string(18446744073709551615), "18446744073709551615");
    assert_eq!(read_number(&chars_of("+007"), 10), Some(7));
    assert_eq!(read_number(&chars_of("11"), 10), None);
    assert_eq!(read_number(&chars_of("18446744073709551616"), u64::MAX), None);
    assert_eq!(read_number(&chars_of(""), 10), None);
    assert_eq!(read_number(&chars_of("+"), 10), None);
    assert_eq!(read_number(&chars_of("1 "), 10), None);
    assert_eq!(read_number(&chars_of("-1"), 10), None);
}

/// Reads a frame from the front of `input` as a connection would: part by part, as many bytes as
/// are asked for.
fn read(input: &[u8], limit: u64) -> Option<(u8, Vec<u8>, usize)> {
    let mut have = 0;
    loop {
        match decode_frame(&input[..have], limit) {
            Decoded::More(n) => have += n as usize,
            Decoded::TooLong => return None,
            Decoded::Whole { opcode, payload, consumed } => return Some((opcode, payload, consumed)),
        }
    }
}

#[test]
fn frames_have_the_published_bytes() {
    assert_eq!(encode_plain(OP_TEXT, b"Hello"), [0x81, 0x05, 0x48, 0x65, 0x6c, 0x6c, 0x6f]);
    assert_eq!(
        encode_masked(OP_TEXT, b"Hello", [0x37, 0xfa, 0x21, 0x3d]),
        [0x81, 0x85, 0x37, 0xfa, 0x21, 0x3d, 0x7f, 0x9f, 0x4d, 0x51, 0x58]
    );
    assert_eq!(encode_plain(OP_CLOSE, b""), [0x88, 0x00]);
    assert_eq!(encode_plain(OP_BINARY, &[7; 126])[..4], [0x82, 126, 0, 126]);
    assert_eq!(
        encode_plain(OP_BINARY, &[7; 65536])[..10],
        [0x82, 127, 0, 0, 0, 0, 0, 1, 0, 0]
    );
}

#[test]
fn frames_come_back_and_leave_what_follows() {
    for len in [0, 1, 125, 126, 127, 65535, 65536] {
        let payload: Vec<u8> = (0..len).map(|i| (i % 251) as u8).collect();
        for opcode in [OP_TEXT, OP_BINARY, OP_PING, OP_PONG, OP_CLOSE] {
            for frame in [
                encode_plain(opcode, &payload),
                encode_masked(opcode, &payload, [1, 2, 3, 250]),
            ] {
                let mut wire = frame.clone();
                wire.extend_from_slice(b"next frame");
                assert_eq!(read(&wire, 1 << 20), Some((opcode, payload.clone(), frame.len())));
            }
        }
    }
}

#[test]
fn p_oversized_ws_frame_rejected_without_alloc() {
    let mut frame = vec![0x82u8, 0xFFu8];
    frame.extend_from_slice(&u64::MAX.to_be_bytes());
    // The reader gets the header in two parts and gives up on the length.
    assert!(matches!(ws_read_frame_detailed(&[], None), ReadStep::More(2)));
    assert!(matches!(ws_read_frame_detailed(&frame[..2], None), ReadStep::More(8)));
    match ws_read_frame_detailed(&frame, None) {
        ReadStep::Settled(ReadOutcome::Closed) => {}
        ReadStep::Settled(ReadOutcome::Frame(_)) => panic!("oversized frame accepted as a Frame"),
        ReadStep::Settled(ReadOutcome::NoData) => panic!("oversized frame returned NoData"),
        ReadStep::More(_) => panic!("oversized frame is waited for"),
    }
    // The limit itself is allowed.
    let whole = encode_plain(OP_BINARY, &[0; 16]);
    assert!(read(&whole, 16).is_some());
    assert!(read(&whole, 15).is_none());
}
