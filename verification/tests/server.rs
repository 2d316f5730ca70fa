//! The server, with numbers in the place of listeners and connections.
use loft_net::frame::{OP_BINARY, OP_CLOSE, OP_PING, OP_PONG, OP_TEXT};
use loft_net::http::{parse_request, Request};
use loft_net::server::{
    accept_stream, admitted, bind_address, bind_listener, broadcast_count, client_probed,
    client_read, n_tcp_accept, n_tcp_body, n_tcp_close, n_tcp_headers, n_tcp_method, n_tcp_path,
    n_ws_accept_nonblocking, n_ws_broadcast, n_ws_client_active, n_ws_clients_len, n_ws_close,
    n_ws_event_client_id, n_ws_event_kind, n_ws_event_payload, n_ws_idle_sleep_ms, n_ws_message,
    n_ws_next_event, n_ws_opcode, n_ws_recv, n_ws_send, n_ws_send_binary, n_ws_upgrade, probe_plain,
    pump_polled, send_and_close, try_accept_inner, upgraded, ws_read_frame_detailed, AcceptOutcome,
    AcceptStep, Admission, Ahead, Asked, ClientStep, Frame, Incoming, Listening, Peeked,
    PollOutcome, Probe, PumpStep, ReadAhead, ReadOutcome, ReadStep, Server, Stop,
};
use loft_net::slots::Slots;

type Numbers = Server<u8, u32>;

fn request(wire: &[u8]) -> Request {
    parse_request(wire).expect("a request").request
}

fn page() -> Request {
    request(b"GET /page HTTP/1.1\r\nHost: x\r\n\r\n")
}

fn upgrade() -> Request {
    request(b"GET /ws HTTP/1.1\r\nSec-WebSocket-Key: dGhlIHNhbXBsZSBub25jZQ==\r\n\r\n")
}

fn frame(opcode: u8, payload: &[u8]) -> Frame {
    Frame { opcode, payload: payload.to_vec() }
}

fn join(server: &mut Numbers, stream: u32) -> AcceptOutcome {
    match try_accept_inner(server, Incoming::Connection(stream, Some(upgrade()))) {
        Admission::Upgrade(u) => {
            assert_eq!(u.stream, stream);
            assert!(u.response.contains("s3pPLMBiTxaQ9kYGzzhZRbK+xOo="));
            admitted(server, Some(u.stream))
        }
        Admission::Settled(_) => panic!("no upgrade"),
    }
}

#[test]
fn listeners_bind_where_they_are_told() {
    assert_eq!(bind_address(Some("127.0.0.1"), 8080), "127.0.0.1:8080");
    assert_eq!(bind_address(None, 80), "0.0.0.0:80");
    assert_eq!(bind_address(Some(""), -1), "0.0.0.0:4294967295");
    let mut s: Numbers = Server::new();
    assert_eq!(bind_listener(&mut s, Some(7)), 0);
    assert_eq!(bind_listener(&mut s, None), -1);
    assert_eq!(bind_listener(&mut s, Some(8)), 1);
    assert_eq!(s.listener(1), Some(&8));
    assert_eq!(n_tcp_close(&mut s, 0), Some(7));
    assert_eq!(n_tcp_close(&mut s, 0), None);
    assert_eq!(s.listener(0), None);
    assert_eq!(s.listener(-1), None);
    // A listener is never put in the place of another.
    assert_eq!(bind_listener(&mut s, Some(9)), 2);
}

#[test]
fn bind_address_is_honored() {
    let mut s: Server<String, u32> = Server::new();
    let h = bind_listener(&mut s, Some(bind_address(Some("127.0.0.1"), 0)));
    assert!(h >= 0, "loopback bind succeeds");
    let bound = s.listener(h).unwrap();
    assert_eq!(
        bound,
        "127.0.0.1:0",
        "a 127.0.0.1 listener is bound to loopback, not the wildcard"
    );
}

#[test]
fn tls_listeners_never_take_plain_connections() {
    assert_eq!(accept_stream(Listening::Tls, Asked::Connection), AcceptStep::Handshake);
    assert_eq!(accept_stream(Listening::Plain, Asked::Connection), AcceptStep::TakePlain);
    assert_eq!(accept_stream(Listening::Tls, Asked::WouldBlock), AcceptStep::NothingPending);
    assert_eq!(accept_stream(Listening::Plain, Asked::Failed), AcceptStep::Error);
    assert_eq!(accept_stream(Listening::Tls, Asked::Failed), AcceptStep::Error);
    assert_eq!(accept_stream(Listening::Missing, Asked::Connection), AcceptStep::NothingPending);
    assert_eq!(accept_stream(Listening::Missing, Asked::Failed), AcceptStep::NothingPending);
}

#[test]
fn plain_connections_are_looked_at() {
    assert_eq!(probe_plain(Peeked::Bytes(0)), Probe::Closed);
    assert_eq!(probe_plain(Peeked::Bytes(1)), Probe::Pending);
    assert_eq!(probe_plain(Peeked::Bytes(2)), Probe::Ready);
    assert_eq!(probe_plain(Peeked::Idle), Probe::Pending);
    assert_eq!(probe_plain(Peeked::Failed), Probe::Closed);
}

#[test]
fn reading_ahead_loses_nothing() {
    let mut r = ReadAhead::new();
    assert_eq!(r.probe_header(Ahead::Idle), Probe::Pending);
    assert_eq!(r.probe_header(Ahead::Bytes(vec![1])), Probe::Pending);
    assert!(!r.is_ready());
    assert_eq!(r.probe_header(Ahead::Bytes(vec![2, 3])), Probe::Ready);
    assert!(r.is_ready());
    assert_eq!(r.read(2), [1, 2]);
    assert_eq!(r.read(9), [3]);
    assert!(r.is_empty());
    assert_eq!(r.read(9), []);
}

#[test]
fn a_frame_is_waiting_from_two_bytes_on() {
    let mut r = ReadAhead::new();
    assert_eq!(r.probe_header(Ahead::Bytes(vec![])), Probe::Closed);
    assert_eq!(r.probe_header(Ahead::Failed), Probe::Closed);
    // One byte is no frame, and a connection that ends behind it has ended.
    assert_eq!(r.probe_header(Ahead::Bytes(vec![1])), Probe::Pending);
    assert_eq!(r.probe_header(Ahead::Bytes(vec![])), Probe::Closed);
    assert_eq!(r.probe_header(Ahead::Failed), Probe::Closed);
    assert_eq!(r.probe_header(Ahead::Idle), Probe::Pending);
    // Two bytes are one, also where the connection has ended behind them.
    assert_eq!(r.probe_header(Ahead::Bytes(vec![2])), Probe::Ready);
    assert_eq!(r.probe_header(Ahead::Idle), Probe::Ready);
    assert_eq!(r.probe_header(Ahead::Bytes(vec![])), Probe::Ready);
    assert_eq!(r.probe_header(Ahead::Failed), Probe::Ready);
}

#[test]
fn requests_wait_for_their_response() {
    let mut s: Numbers = Server::new();
    assert!(!n_tcp_accept(&mut s, None, None));
    assert!(!n_tcp_accept(&mut s, Some(1), None));
    assert!(send_and_close(&mut s).is_none());
    let q = request(b"POST /p HTTP/1.1\r\nA: b\r\nContent-Length: 2\r\n\r\nhi");
    assert!(n_tcp_accept(&mut s, Some(1), Some(q)));
    assert_eq!(n_tcp_method(&s), "POST");
    assert_eq!(n_tcp_path(&s), "/p");
    assert_eq!(n_tcp_headers(&s), "A: b\nContent-Length: 2\n");
    assert_eq!(n_tcp_body(&s), "hi");
    assert_eq!(send_and_close(&mut s), Some(1));
    assert_eq!(send_and_close(&mut s), None);
    assert_eq!(n_tcp_path(&s), "/p");
}

#[test]
fn a_waiting_request_becomes_a_websocket() {
    let mut s: Numbers = Server::new();
    assert!(n_ws_upgrade(&mut s).is_none());
    // A request that is no handshake can still be answered.
    n_tcp_accept(&mut s, Some(1), Some(page()));
    assert!(n_ws_upgrade(&mut s).is_none());
    assert_eq!(n_ws_clients_len(&s), 0);
    assert_eq!(send_and_close(&mut s), Some(1));
    n_tcp_accept(&mut s, Some(2), Some(upgrade()));
    let u = n_ws_upgrade(&mut s).unwrap();
    assert!(send_and_close(&mut s).is_none());
    assert!(n_ws_upgrade(&mut s).is_none());
    assert_eq!(u.stream, 2);
    assert!(u.response.starts_with("HTTP/1.1 101 "));
    assert_eq!(upgraded(&mut s, None), -1);
    assert_eq!(upgraded(&mut s, Some(u.stream)), 0);
    assert_eq!(upgraded(&mut s, Some(3)), 1);
    assert_eq!(n_ws_clients_len(&s), 2);
}

#[test]
fn frames_of_a_websocket_are_taken_in() {
    let mut s: Numbers = Server::new();
    upgraded(&mut s, Some(1));
    let r = n_ws_recv(&mut s, 0, None);
    assert!(!r.ok && !r.again);
    let r = n_ws_recv(&mut s, 1, Some(frame(OP_TEXT, b"x")));
    assert!(!r.ok && !r.again);
    let r = n_ws_recv(&mut s, 0, Some(frame(OP_TEXT, b"over-tls")));
    assert!(r.ok && !r.again && r.pong.is_none());
    assert_eq!((n_ws_opcode(&s), n_ws_message(&s)), (i64::from(OP_TEXT), "over-tls"));
    // A ping is answered, and the message is the one in the frame behind it.
    let r = n_ws_recv(&mut s, 0, Some(frame(OP_PING, b"hi")));
    assert!(!r.ok && r.again);
    assert_eq!(r.pong.unwrap(), [0x80 | OP_PONG, 2, b'h', b'i']);
    assert_eq!(n_ws_message(&s), "over-tls");
    let r = n_ws_recv(&mut s, 0, Some(frame(OP_PONG, b"?")));
    assert!(!r.ok && r.again && r.pong.is_none());
    assert_eq!((n_ws_opcode(&s), n_ws_message(&s)), (10, "over-tls"));
    assert!(n_ws_recv(&mut s, 0, Some(frame(OP_BINARY, &[b'a', 255]))).ok);
    assert_eq!((n_ws_opcode(&s), n_ws_message(&s)), (2, "a\u{fffd}"));
    // A close ends it, and shows in the opcode.
    let r = n_ws_recv(&mut s, 0, Some(frame(OP_CLOSE, b"")));
    assert!(!r.ok && !r.again && r.pong.is_none());
    assert_eq!((n_ws_opcode(&s), n_ws_message(&s)), (8, "a\u{fffd}"));
}

#[test]
fn messages_go_to_those_who_are_there() {
    let mut s: Numbers = Server::new();
    for i in 0..4 {
        upgraded(&mut s, Some(i));
    }
    assert_eq!(n_ws_send(&s, 2, b"hi").unwrap(), [0x81, 2, b'h', b'i']);
    assert_eq!(n_ws_send_binary(&s, 2, b"\0").unwrap(), [0x82, 1, 0]);
    let (stream, bytes) = n_ws_close(&mut s, 2).unwrap();
    assert_eq!((stream, bytes), (2, vec![0x88, 0]));
    assert!(n_ws_close(&mut s, 2).is_none());
    assert!(n_ws_send(&s, 2, b"hi").is_none());
    assert!(n_ws_send_binary(&s, 9, b"hi").is_none());
    assert!(!n_ws_client_active(&s, 2));
    assert!(n_ws_client_active(&s, 3));
    assert_eq!(s.stream_mut(3).copied(), Some(3));
    assert!(s.stream_mut(2).is_none());
    let b = n_ws_broadcast(&s, b"all");
    assert_eq!(b.targets, [0, 1, 3]);
    assert_eq!(b.bytes, [0x81, 3, b'a', b'l', b'l']);
    assert_eq!(broadcast_count(&[true, false, true]), 2);
    assert_eq!(broadcast_count(&[]), 0);
}

#[test]
fn connections_are_sorted() {
    let mut s: Numbers = Server::new();
    let settled = |a: Admission<u32>| match a {
        Admission::Settled(o) => o,
        Admission::Upgrade(_) => panic!("an upgrade"),
    };
    assert_eq!(settled(try_accept_inner(&mut s, Incoming::Nothing)), AcceptOutcome::NoneYet);
    assert_eq!(settled(try_accept_inner(&mut s, Incoming::Failed)), AcceptOutcome::Error);
    assert_eq!(
        settled(try_accept_inner(&mut s, Incoming::Connection(1, None))),
        AcceptOutcome::Error
    );
    // It names the key and has none.
    let odd = request(b"GET / x\r\nX-Note: sec-websocket-key\r\n\r\n");
    assert_eq!(
        settled(try_accept_inner(&mut s, Incoming::Connection(1, Some(odd)))),
        AcceptOutcome::Error
    );
    assert_eq!(
        settled(try_accept_inner(&mut s, Incoming::Connection(4, Some(page())))),
        AcceptOutcome::Http
    );
    assert_eq!(send_and_close(&mut s), Some(4));
    assert_eq!(join(&mut s, 10), AcceptOutcome::Pending(0));
    assert_eq!(join(&mut s, 11), AcceptOutcome::Pending(1));
    assert_eq!(admitted(&mut s, None), AcceptOutcome::Error);
    // A place that was given up is taken again.
    n_ws_close(&mut s, 0);
    assert_eq!(join(&mut s, 12), AcceptOutcome::Pending(0));
    assert_eq!(s.stream_mut(1).copied(), Some(11));

    assert_eq!(n_ws_accept_nonblocking(AcceptOutcome::Pending(3)), 3);
    assert_eq!(n_ws_accept_nonblocking(AcceptOutcome::NoneYet), -1);
    assert_eq!(n_ws_accept_nonblocking(AcceptOutcome::Http), -2);
    assert_eq!(n_ws_accept_nonblocking(AcceptOutcome::Error), -2);
}

#[test]
fn clients_are_polled() {
    let outcome = |c: ClientStep| match c {
        ClientStep::Settled(PollOutcome::NoData) => "nothing".to_string(),
        ClientStep::Settled(PollOutcome::Disconnected) => "gone".to_string(),
        ClientStep::Settled(PollOutcome::Frame(t)) => format!("message {}", t),
        ClientStep::Read => "read".to_string(),
        ClientStep::Pong(p) => format!("pong {:?}", p),
        ClientStep::Again => "again".to_string(),
    };
    assert_eq!(outcome(client_probed(Probe::Closed)), "gone");
    assert_eq!(outcome(client_probed(Probe::Pending)), "nothing");
    assert_eq!(outcome(client_probed(Probe::Ready)), "read");
    assert_eq!(outcome(client_read(ReadOutcome::NoData)), "nothing");
    assert_eq!(outcome(client_read(ReadOutcome::Closed)), "gone");
    assert_eq!(outcome(client_read(ReadOutcome::Frame(frame(OP_CLOSE, b"")))), "gone");
    assert_eq!(outcome(client_read(ReadOutcome::Frame(frame(OP_PING, b"a")))), "pong [138, 1, 97]");
    assert_eq!(outcome(client_read(ReadOutcome::Frame(frame(OP_TEXT, b"a\xFF")))), "message a\u{fffd}");
    assert_eq!(outcome(client_read(ReadOutcome::Frame(frame(OP_BINARY, b"b")))), "message b");
    // Neither a pong nor any other frame is a message.
    assert_eq!(outcome(client_read(ReadOutcome::Frame(frame(OP_PONG, b"c")))), "again");
    assert_eq!(outcome(client_read(ReadOutcome::Frame(frame(0, b"d")))), "again");
    assert_eq!(outcome(client_read(ReadOutcome::Frame(frame(3, b"e")))), "again");
}

fn event(s: &Numbers) -> (i64, i64, String) {
    (n_ws_event_kind(s), n_ws_event_client_id(s), n_ws_event_payload(s).to_string())
}

#[test]
fn the_pump_gives_one_event_at_a_time() {
    let mut s: Numbers = Server::new();
    assert_eq!(event(&s), (-1, -1, String::new()));
    assert_eq!(n_ws_next_event(&mut s, AcceptOutcome::NoneYet), PumpStep::Nothing);
    for i in 0..3 {
        let o = join(&mut s, i);
        assert_eq!(n_ws_next_event(&mut s, o), PumpStep::Event);
        assert_eq!(event(&s), (0, i64::from(i), String::new()));
    }
    let o = match try_accept_inner(&mut s, Incoming::Connection(9, Some(page()))) {
        Admission::Settled(o) => o,
        Admission::Upgrade(_) => panic!("an upgrade"),
    };
    assert_eq!(n_ws_next_event(&mut s, o), PumpStep::Event);
    assert_eq!(event(&s), (3, -1, "/page".to_string()));

    // The clients are polled from the lowest id on.
    assert_eq!(n_ws_next_event(&mut s, AcceptOutcome::Error), PumpStep::Poll(0));
    assert_eq!(pump_polled(&mut s, 0, PollOutcome::Disconnected), PumpStep::Event);
    assert_eq!(event(&s), (2, 0, String::new()));
    assert!(!n_ws_client_active(&s, 0));
    assert_eq!(n_ws_next_event(&mut s, AcceptOutcome::NoneYet), PumpStep::Poll(1));
    assert_eq!(pump_polled(&mut s, 1, PollOutcome::NoData), PumpStep::Poll(2));
    assert_eq!(pump_polled(&mut s, 2, PollOutcome::Frame("m".to_string())), PumpStep::Event);
    assert_eq!(event(&s), (1, 2, "m".to_string()));
    assert_eq!(pump_polled(&mut s, 2, PollOutcome::NoData), PumpStep::Nothing);
    assert_eq!(event(&s), (1, 2, "m".to_string()));
}

#[test]
fn idle_servers_sleep() {
    assert_eq!(n_ws_idle_sleep_ms(5), Some(5));
    assert_eq!(n_ws_idle_sleep_ms(0), None);
    assert_eq!(n_ws_idle_sleep_ms(-5), None);
    assert_eq!(n_ws_idle_sleep_ms(1 << 32), None);
}

#[test]
fn tables_take_places_again() {
    let mut t = Slots::new();
    assert_eq!(t.append("a"), 0);
    assert_eq!(t.place("b"), 1);
    assert_eq!(t.append("c"), 2);
    assert_eq!(t.release(0), Some("a"));
    assert_eq!(t.release(1), Some("b"));
    assert_eq!(t.release(1), None);
    assert_eq!(t.release(-1), None);
    assert_eq!(t.append("d"), 3);
    assert_eq!(t.place("e"), 0);
    assert_eq!(t.place("f"), 1);
    assert_eq!(t.place("g"), 4);
    assert_eq!(t.get(2), Some(&"c"));
    *t.get_mut(2).unwrap() = "C";
    assert_eq!(t.get(2), Some(&"C"));
    assert_eq!(t.get(5), None);
    assert!(t.get_mut(-1).is_none());
    assert!(t.active(4) && !t.active(5) && !t.active(-1));
    assert_eq!(t.len(), 5);
}

#[test]
fn frames_are_read_part_by_part() {
    let wire = loft_net::frame::encode_masked(OP_TEXT, b"hi", [1, 2, 3, 4]);
    let read = |n: usize, stopped| match ws_read_frame_detailed(&wire[..n], stopped) {
        ReadStep::More(n) => format!("more {n}"),
        ReadStep::Settled(ReadOutcome::NoData) => "nothing".to_string(),
        ReadStep::Settled(ReadOutcome::Closed) => "closed".to_string(),
        ReadStep::Settled(ReadOutcome::Frame(f)) => format!("{} {:?}", f.opcode, f.payload),
    };
    assert_eq!(read(0, None), "more 2");
    assert_eq!(read(2, None), "more 4");
    assert_eq!(read(6, None), "more 2");
    assert_eq!(read(8, None), "1 [104, 105]");
    assert_eq!(read(0, Some(Stop::Idle)), "nothing");
    assert_eq!(read(2, Some(Stop::Idle)), "closed");
    assert_eq!(read(0, Some(Stop::Ended)), "closed");
    assert_eq!(read(6, Some(Stop::Ended)), "closed");
}
