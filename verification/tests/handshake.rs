//! The opening handshake of a WebSocket.
use loft_net::handshake::{
    accept_token_for, handshake_accepts, handshake_request, mask_from, nonce_from, parse_ws_url,
    pseudo_random_bytes, wants_websocket, ws_upgrade,
};
use loft_net::http::parse_request;

fn parts(url: &str) -> Option<(String, u16, String)> {
    parse_ws_url(url).map(|u| (u.host, u.port, u.path))
}

#[test]
fn tokens_are_the_published_ones() {
    assert_eq!(
        accept_token_for("dGhlIHNhbXBsZSBub25jZQ=="),
        "s3pPLMBiTxaQ9kYGzzhZRbK+xOo="
    );
    assert_eq!(accept_token_for("+DeChVTWG6YSFRexZRDVDA=="), "Av6vyrqfUQY/b2QPynvh5UNFXlk=");
}

#[test]
fn nonces_come_from_a_seed() {
    assert_eq!(pseudo_random_bytes(0, 4), [191, 8, 17, 116]);
    assert_eq!(pseudo_random_bytes(1, 0), []);
    assert_eq!(mask_from(7), [94, 63, 49, 145]);
    assert_eq!(nonce_from(12345), "+DeChVTWG6YSFRexZRDVDA==");
}

#[test]
fn addresses_are_taken_apart() {
    let full = |h: &str, p: u16, q: &str| Some((h.to_string(), p, q.to_string()));
    assert_eq!(parts("ws://example.org:8080/a/b?c"), full("example.org", 8080, "/a/b?c"));
    assert_eq!(parts("ws://example.org"), full("example.org", 80, "/"));
    assert_eq!(parts("ws://example.org/"), full("example.org", 80, "/"));
    assert_eq!(parts("ws://h:0"), full("h", 0, "/"));
    assert_eq!(parts("ws://a:b:1/x:y"), full("a:b", 1, "/x:y"));
    assert_eq!(parts("ws://"), full("", 80, "/"));
    for (host, port, path) in [("h", 0, "/"), ("::1", 65535, "//x"), ("", 80, "/a:1/b")] {
        assert_eq!(parts(&format!("ws://{host}:{port}{path}")), full(host, port, path));
    }
    assert_eq!(parts("wss://example.org"), None);
    assert_eq!(parts("http://example.org"), None);
    assert_eq!(parts("ws://h:65536"), None);
    assert_eq!(parts("ws://h:"), None);
    assert_eq!(parts("ws://h:x/"), None);
    assert_eq!(parts(""), None);
}

#[test]
fn requests_have_their_bytes() {
    assert_eq!(
        handshake_request("h", 8080, "/ws", "nonce"),
        "GET /ws HTTP/1.1\r\nHost: h:8080\r\nUpgrade: websocket\r\nConnection: Upgrade\r\n\
         Sec-WebSocket-Key: nonce\r\nSec-WebSocket-Version: 13\r\n\r\n"
    );
}

#[test]
fn both_sides_agree() {
    let nonce = nonce_from(99);
    let request = handshake_request("localhost", 8080, "/game", &nonce);
    let parsed = parse_request(request.as_bytes()).unwrap();
    assert_eq!(parsed.consumed, request.len());
    assert!(wants_websocket(&parsed.request.headers));
    let response = ws_upgrade(&parsed.request.headers).unwrap();
    assert!(handshake_accepts(response.as_bytes(), &nonce));
    assert!(!handshake_accepts(response.as_bytes(), &nonce_from(98)));
}

#[test]
fn responses_have_their_bytes() {
    assert_eq!(
        ws_upgrade("Host: x\nsec-websocket-KEY:  dGhlIHNhbXBsZSBub25jZQ== \n").unwrap(),
        "HTTP/1.1 101 Switching Protocols\r\nUpgrade: websocket\r\nConnection: Upgrade\r\n\
         Sec-WebSocket-Accept: s3pPLMBiTxaQ9kYGzzhZRbK+xOo=\r\n\r\n"
    );
    assert!(ws_upgrade("Host: x\n").is_none());
    assert!(ws_upgrade("X-Sec-WebSocket-Key: y\n").is_none());
}

#[test]
fn only_a_switch_with_the_right_token_is_accepted() {
    let token = accept_token_for("n");
    let with = |status: &str, header: &str| {
        format!("{}\r\nUpgrade: websocket\r\n{}\r\n\r\n", status, header).into_bytes()
    };
    let good = format!("SEC-WebSocket-Accept :  {} ", token);
    assert!(handshake_accepts(&with("HTTP/1.1 101 Switching Protocols", &good), "n"));
    assert!(handshake_accepts(&with("HTTP/1.0 101", &good), "n"));
    assert!(!handshake_accepts(&with("HTTP/1.1 200 OK", &good), "n"));
    assert!(!handshake_accepts(&with("HTTP/1.1 101 x", "X: y"), "n"));
    assert!(!handshake_accepts(&with("HTTP/1.1 101 x", "Sec-WebSocket-Accept: no"), "n"));
    // The last of several tokens counts.
    let twice = format!("{}\r\nSec-WebSocket-Accept: no", good);
    assert!(!handshake_accepts(&with("HTTP/1.1 101 x", &twice), "n"));
}

#[test]
fn upgrades_are_told_from_pages() {
    assert!(wants_websocket("Host: x\nSec-WebSocket-Key: y\n"));
    assert!(wants_websocket("SEC-WEBSOCKET-KEY: y\n"));
    assert!(!wants_websocket("Host: x\n"));
    assert!(!wants_websocket(""));
}
