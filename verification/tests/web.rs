//! HTTP requests of a client, binary buffers, and the bridge to a browser.
use loft_net::browser;
use loft_net::web::{
    byte_at, method_of, n_http_body, n_http_do, n_http_headers, n_http_size, pack_reset, pack_take,
    pack_u16_le, pack_u32_le, pack_u8, parse_headers, Header, HttpLatch, Method, PackBuf, Response,
};

fn header(name: &str, value: &str) -> Header {
    Header { name: name.to_string(), value: value.to_string() }
}

fn response(status: u16, headers: Vec<Header>) -> Response {
    Response { status, headers, body: vec![1, 0, 255] }
}

#[test]
fn methods_are_written_in_capitals() {
    assert_eq!(method_of("GET"), Some(Method::Get));
    assert_eq!(method_of("POST"), Some(Method::Post));
    assert_eq!(method_of("PUT"), Some(Method::Put));
    assert_eq!(method_of("DELETE"), Some(Method::Delete));
    assert_eq!(method_of("HEAD"), Some(Method::Head));
    assert_eq!(method_of("get"), None);
    assert_eq!(method_of("PATCH"), None);
    assert_eq!(method_of(""), None);
}

#[test]
fn request_headers_are_read_line_by_line() {
    let hs = parse_headers(" Range :  bytes=5-9 \r\n\nno colon\nX:a:b\n: v");
    let pairs: Vec<(&str, &str)> =
        hs.iter().map(|h| (h.name.as_str(), h.value.as_str())).collect();
    assert_eq!(pairs, [("Range", "bytes=5-9"), ("X", "a:b"), ("", "v")]);
    assert!(parse_headers("").is_empty());
}

#[test]
fn the_last_response_is_kept() {
    let mut l = HttpLatch::new();
    assert_eq!((n_http_body(&l), n_http_headers(&l)), (&b""[..], ""));
    let r = response(206, vec![header("a", "b"), header("content-range", "bytes 0-2/9")]);
    assert_eq!(n_http_do(&mut l, Some(r)), 206);
    assert_eq!(n_http_body(&l), [1, 0, 255]);
    assert_eq!(n_http_headers(&l), "a: b\ncontent-range: bytes 0-2/9");
    assert_eq!(n_http_do(&mut l, Some(response(404, vec![]))), 404);
    assert_eq!(n_http_headers(&l), "");
    // No response leaves nothing of the one before.
    assert_eq!(n_http_do(&mut l, None), 0);
    assert_eq!((n_http_body(&l), n_http_headers(&l)), (&b""[..], ""));
}

#[test]
fn sizes_come_from_the_length() {
    let size = |status: u16, value: &str| {
        n_http_size(Some(&response(status, vec![header("x", "1"), header("CONTENT-length", value)])))
    };
    assert_eq!(size(200, "1000"), 1000);
    assert_eq!(size(399, "+7"), 7);
    assert_eq!(size(199, "1000"), -1);
    assert_eq!(size(400, "1000"), -1);
    assert_eq!(size(200, "9223372036854775807"), i64::MAX);
    assert_eq!(size(200, "9223372036854775808"), -1);
    assert_eq!(size(200, "many"), -1);
    assert_eq!(size(200, " 5"), -1);
    assert_eq!(size(200, "-5"), -1);
    assert_eq!(size(200, "-0"), 0);
    assert_eq!(n_http_size(None), -1);
    assert_eq!(n_http_size(Some(&response(200, vec![]))), -1);
    // The first of several counts.
    let two = vec![header("Content-Length", "x"), header("Content-Length", "5")];
    assert_eq!(n_http_size(Some(&response(200, two))), -1);
}

#[test]
fn buffers_are_built_field_by_field() {
    let mut p = PackBuf::new();
    pack_u8(&mut p, 9);
    pack_reset(&mut p);
    pack_u8(&mut p, 0x101);
    pack_u8(&mut p, -1);
    pack_u16_le(&mut p, 0x12345);
    pack_u32_le(&mut p, -2);
    pack_u32_le(&mut p, 5);
    let blob = pack_take(&mut p);
    assert_eq!(blob, [1, 255, 0x45, 0x23, 254, 255, 255, 255, 5, 0, 0, 0]);
    assert_eq!(pack_take(&mut p), []);
    assert_eq!(byte_at(0, &blob), 1);
    assert_eq!(byte_at(4, &blob), 254);
    assert_eq!(byte_at(12, &blob), -1);
    assert_eq!(byte_at(-1, &blob), -1);
    assert_eq!(byte_at(0, b""), -1);
    // A value is read back, sign and all.
    let mut u = 0u32;
    for i in 0..4 {
        u |= (byte_at(4 + i, &blob) as u32) << (8 * i);
    }
    assert_eq!(u as i32, -2);
}

#[test]
fn the_bridge_keeps_the_last_message() {
    assert!(browser::ws_client_send(1));
    assert!(!browser::ws_client_send(0));
    let mut b = browser::Bridge::new();
    assert!(!browser::ws_client_recv(&mut b, 0, vec![9], 1));
    assert_eq!((browser::ws_client_message(&b), browser::ws_client_opcode(&b)), (vec![], 0));
    assert!(browser::ws_client_recv(&mut b, 1, vec![0, 255], 2));
    assert_eq!((browser::ws_client_message(&b), browser::ws_client_opcode(&b)), (vec![0, 255], 2));
    assert_eq!(browser::message_size(3), 3);
    assert_eq!(browser::message_size(-1), 0);
}

#[test]
fn a_host_without_opcodes_hands_over_text() {
    let mut l = browser::TextLatch::new();
    let mut room = vec![0u8; browser::ROOM];
    room[..3].copy_from_slice(&[b'h', b'i', 255]);
    assert!(!browser::recv(&mut l, 0, &room));
    assert!(!browser::recv(&mut l, -1, &room));
    assert!(browser::recv(&mut l, 3, &room));
    assert_eq!(browser::last_message(&l), "hi\u{fffd}");
    assert!(browser::recv(&mut l, 100, &room[..2]));
    assert_eq!(browser::last_message(&l), "hi");
    assert_eq!(browser::last_opcode(), 1);
}
