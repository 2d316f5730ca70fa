//! Requests that are read and responses that are written.
use loft_net::http::{
    n_tcp_respond, n_tcp_respond_bytes, n_tcp_respond_full, n_tcp_respond_typed, n_tcp_slice,
    parse_head, parse_request, read_head, status_text, with_body, HeadReader, HeadStep, HEAD_LIMIT,
};

const TAIL: &str = "Cache-Control: no-store, no-cache, must-revalidate, max-age=0\r\n\
    Pragma: no-cache\r\nExpires: 0\r\nConnection: close\r\n\r\n";

#[test]
fn p221_parse_request_leaves_post_header_bytes_in_kernel_buffer() {
    let trailing: &[u8] = b"WS-FRAME-BYTES-XYZ";
    let mut wire = b"GET /ws HTTP/1.1\r\n\
        Host: 127.0.0.1\r\n\
        Upgrade: websocket\r\n\
        Connection: Upgrade\r\n\
        Sec-WebSocket-Key: dGhlIHNhbXBsZSBub25jZQ==\r\n\
        Sec-WebSocket-Version: 13\r\n\
        \r\n"
        .to_vec();
    let head = wire.len();
    wire.extend_from_slice(trailing);
    let parsed = parse_request(&wire).expect("parse");
    assert_eq!(parsed.request.method, "GET");
    assert_eq!(parsed.request.path, "/ws");
    assert_eq!(parsed.consumed, head);
    assert_eq!(&wire[parsed.consumed..], trailing, "post-header bytes were swallowed");
}

#[test]
fn requests_have_headers_and_a_body() {
    let wire = b"POST /a?b=c HTTP/1.1\r\nContent-Length: 99\r\nX: y\r\ncontent-LENGTH :  5 \r\n\r\nhello world";
    let p = parse_request(wire).unwrap();
    assert_eq!(p.request.method, "POST");
    assert_eq!(p.request.path, "/a?b=c");
    assert_eq!(p.request.headers, "Content-Length: 99\nX: y\ncontent-LENGTH :  5 \n");
    assert_eq!(p.request.body, "hello");
    assert_eq!(&wire[p.consumed..], b" world");
}

#[test]
fn a_body_that_is_no_text_is_decoded_lossily() {
    let p = parse_request(b"PUT / x\r\nContent-Length: 3\r\n\r\na\xFFb").unwrap();
    assert_eq!(p.request.body, "a\u{fffd}b");
    let p = parse_request("PUT / x\r\nContent-Length: 2\r\n\r\né".as_bytes()).unwrap();
    assert_eq!(p.request.body, "é");
}

#[test]
fn a_length_that_is_no_number_is_none() {
    let p = parse_request(b"PUT / x\r\nContent-Length: five\r\n\r\nhello").unwrap();
    assert_eq!(p.request.body, "");
    let p = parse_request(b"PUT / x\r\nContent-Length: -1\r\n\r\nhello").unwrap();
    assert_eq!(p.request.body, "");
}

#[test]
fn incomplete_requests_are_none() {
    assert!(parse_request(b"").is_none());
    assert!(parse_request(b"GET / HTTP/1.1\r\nHost: x\r\n").is_none());
    assert!(parse_request(b"GET\r\n\r\n").is_none());
    assert!(parse_request(b"\r\n\r\n").is_none());
    assert!(parse_request(b"PUT / x\r\nContent-Length: 9\r\n\r\nhello").is_none());
}

#[test]
fn heads_end_at_the_first_empty_line() {
    assert_eq!(read_head(b"a b\r\n\r\n\r\n\r\n"), Some(7));
    assert_eq!(read_head(b"\r\n\r\n"), Some(4));
    assert_eq!(read_head(b"a\n\nb\r\r\n\n"), None);
}

#[test]
fn heads_have_a_limit() {
    // The limit counts what stands before the last byte.
    let mut fits = vec![b'a'; HEAD_LIMIT - 3];
    fits.extend_from_slice(b"\r\n\r\n");
    assert_eq!(read_head(&fits), Some(HEAD_LIMIT + 1));
    let mut over = vec![b'a'; HEAD_LIMIT - 2];
    over.extend_from_slice(b"\r\n\r\n");
    assert_eq!(read_head(&over), None);
    // A byte outside ASCII counts twice.
    let mut wide = vec![0xE9; (HEAD_LIMIT - 3) / 2];
    wide.extend_from_slice(b"\r\n\r\n");
    assert!(read_head(&wide).is_some());
    let mut wide = vec![0xE9; (HEAD_LIMIT - 3) / 2 + 1];
    wide.extend_from_slice(b"\r\n\r\n");
    assert!(read_head(&wide).is_none());
}

#[test]
fn heads_are_read_byte_by_byte() {
    let mut reader = HeadReader::new();
    for b in b"GET /x HTTP/1.1\r\n\r" {
        assert_eq!(reader.push(*b), HeadStep::More);
    }
    assert_eq!(reader.push(b'\n'), HeadStep::Complete);
    let head = parse_head(reader.bytes()).unwrap();
    assert_eq!(head.content_length, 0);
    let request = with_body(head, b"");
    assert_eq!(request.path, "/x");
    let mut reader = HeadReader::new();
    for _ in 0..HEAD_LIMIT {
        assert_eq!(reader.push(b'a'), HeadStep::More);
    }
    assert_eq!(reader.push(b'a'), HeadStep::TooLong);
}

#[test]
fn statuses_have_their_reasons() {
    for (status, reason) in [
        (200, "OK"),
        (201, "Created"),
        (204, "No Content"),
        (206, "Partial Content"),
        (304, "Not Modified"),
        (400, "Bad Request"),
        (404, "Not Found"),
        (405, "Method Not Allowed"),
        (416, "Range Not Satisfiable"),
        (500, "Internal Server Error"),
        (418, "Unknown"),
    ] {
        assert_eq!(status_text(status), reason);
    }
}

#[test]
fn responses_are_never_cached() {
    let expected = format!(
        "HTTP/1.1 200 OK\r\nContent-Length: 6\r\nContent-Type: text/plain; charset=utf-8\r\n{}héllo",
        TAIL
    );
    assert_eq!(n_tcp_respond(200, "héllo"), expected.as_bytes());
    assert_eq!(n_tcp_respond_typed(200, "héllo", None), expected.as_bytes());
    assert_eq!(n_tcp_respond_typed(200, "héllo", Some("")), expected.as_bytes());
    // Only the low bits of a status count.
    assert_eq!(n_tcp_respond(65536 + 200, "héllo"), expected.as_bytes());
    let expected = format!(
        "HTTP/1.1 404 Not Found\r\nContent-Length: 0\r\nContent-Type: text/html\r\n{}",
        TAIL
    );
    assert_eq!(n_tcp_respond_typed(404, "", Some("text/html")), expected.as_bytes());
}

#[test]
fn raw_bodies_are_sent_as_they_are() {
    let body = [0x89, b'P', 0, 0xFF];
    let mut expected = format!(
        "HTTP/1.1 200 OK\r\nContent-Length: 4\r\nContent-Type: application/octet-stream\r\n{}",
        TAIL
    )
    .into_bytes();
    expected.extend_from_slice(&body);
    assert_eq!(n_tcp_respond_bytes(200, &body, None), expected);
    let with_type = n_tcp_respond_bytes(200, &body, Some("image/png"));
    assert!(with_type.ends_with(&body));
    assert!(String::from_utf8_lossy(&with_type).contains("\r\nContent-Type: image/png\r\n"));
}

#[test]
fn own_headers_are_sent_with_a_length() {
    let expected = b"HTTP/1.1 206 Partial Content\r\nContent-Range: bytes 0-9/100\r\nETag: \"abc\"\r\nContent-Length: 3\r\nConnection: close\r\n\r\na\0b";
    assert_eq!(
        n_tcp_respond_full(206, b"a\0b", " Content-Range: bytes 0-9/100\r\n\n\t\nETag: \"abc\"\n"),
        expected
    );
    // A length of the caller's own is kept, as for the head of a resource alone.
    let expected = b"HTTP/1.1 200 OK\r\ncontent-length: 1000\r\nConnection: close\r\n\r\n";
    assert_eq!(n_tcp_respond_full(200, b"", "content-length: 1000"), expected);
    assert_eq!(
        n_tcp_respond_full(204, b"", ""),
        b"HTTP/1.1 204 No Content\r\nContent-Length: 0\r\nConnection: close\r\n\r\n"
    );
}

#[test]
fn a_response_says_where_its_body_begins() {
    let body = b"a\r\n\r\nb";
    let wire = n_tcp_respond_bytes(200, body, Some("text/plain"));
    let n = read_head(&wire).unwrap();
    assert_eq!(&wire[n..], body);
    assert_eq!(parse_head(&wire[..n]).unwrap().content_length, body.len());
}

#[test]
fn slices_are_clamped() {
    let body: Vec<u8> = (0..1000).map(|i| (i % 256) as u8).collect();
    assert_eq!(n_tcp_slice(&body, 0, 16), &body[0..16]);
    assert_eq!(n_tcp_slice(&body, 100, 50), &body[100..150]);
    assert_eq!(n_tcp_slice(&body, 984, 16), &body[984..]);
    assert_eq!(n_tcp_slice(&body, 0, 1000), &body[..]);
    assert_eq!(n_tcp_slice(&body, 2000, 10), b"");
    assert_eq!(n_tcp_slice(&body, 990, i64::MAX), &body[990..]);
    assert_eq!(n_tcp_slice(&body, -5, 2), &body[..2]);
    assert_eq!(n_tcp_slice(&body, 5, -2), b"");
    let mut both = n_tcp_slice(&body, 0, 333);
    both.extend(n_tcp_slice(&body, 333, 667));
    assert_eq!(both, body);
}
