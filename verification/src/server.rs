//! An HTTP and WebSocket server that is polled: the state that it keeps between calls, and what it
//! decides. Sockets are the caller's, who reports what they bring and carries out what is decided.
use crate::frame;
use crate::frame::{
    decode_frame, encode_plain, Decoded, OP_BINARY, OP_CLOSE, OP_PING, OP_PONG, OP_TEXT,
};
use crate::handshake;
use crate::handshake::{wants_websocket, ws_upgrade};
use crate::http::{Request, RequestView};
use crate::slots;
use crate::slots::Slots;
use crate::text;
use crate::text::{decimal_string, from_utf8_lossy};
use std::collections::VecDeque;
use vstd::prelude::*;
use vstd::utf8;

verus! {

// ---------------------------------------------------------------------------
// Listening

/// The address that a listener binds to: the given one, or every interface where it is missing or
/// empty, and the port.
pub open spec fn bind_text(addr: Option<&str>, port: u32) -> Seq<char> {
    (match addr {
        Some(a) if a@.len() > 0 => a@,
        _ => "0.0.0.0"@,
    }) + ":"@ + text::decimal(port as nat)
}

/// The address that a listener binds to.
pub fn bind_address(addr: Option<&str>, port: i64) -> (r: String)
    ensures
        r@ == bind_text(addr, port as u32),
{
    let port: u32 = #[verifier::truncate] (port as u32);
    let mut r = String::new();
    match addr {
        Some(a) => {
            if a.is_empty() {
                r.append("0.0.0.0");
            } else {
                r.append(a);
            }
        },
        None => {
            r.append("0.0.0.0");
        },
    }
    r.append(":");
    r.append(decimal_string(port as u64).as_str());
    assert(r@ =~= bind_text(addr, port));
    r
}

/// What stands behind the handle of a listener.
#[derive(Debug, Clone, Copy, PartialEq, Eq, Structural)]
pub enum Listening {
    /// Nothing, or a listener that was closed.
    Missing,
    /// A listener for plain connections.
    Plain,
    /// A listener for TLS connections.
    Tls,
}

/// What came of asking a listener for its next connection.
#[derive(Debug, Clone, Copy, PartialEq, Eq, Structural)]
pub enum Asked {
    /// A connection.
    Connection,
    /// None is waiting.
    WouldBlock,
    /// Asking failed.
    Failed,
}

/// What to do about the next connection.
#[derive(Debug, Clone, Copy, PartialEq, Eq, Structural)]
pub enum AcceptStep {
    /// There is none.
    NothingPending,
    /// An error.
    Error,
    /// Take it as it is.
    TakePlain,
    /// Complete a TLS handshake on it; it is taken only if that works, and an error otherwise.
    Handshake,
}

/// What to do about the next connection of a listener.
pub open spec fn accepting(listening: Listening, asked: Asked) -> AcceptStep {
    if listening == Listening::Missing || asked == Asked::WouldBlock {
        AcceptStep::NothingPending
    } else if asked == Asked::Failed {
        AcceptStep::Error
    } else if listening == Listening::Plain {
        AcceptStep::TakePlain
    } else {
        AcceptStep::Handshake
    }
}

/// Decides about the next connection of a listener.
pub fn accept_stream(listening: Listening, asked: Asked) -> (r: AcceptStep)
    ensures
        r == accepting(listening, asked),
{
    match (listening, asked) {
        (Listening::Missing, _) => AcceptStep::NothingPending,
        (_, Asked::WouldBlock) => AcceptStep::NothingPending,
        (_, Asked::Failed) => AcceptStep::Error,
        (Listening::Plain, Asked::Connection) => AcceptStep::TakePlain,
        (Listening::Tls, Asked::Connection) => AcceptStep::Handshake,
    }
}

/// A TLS listener never gives out a plain connection: a connection is taken as it is only from a
/// listener for plain connections.
pub proof fn tls_is_never_downgraded(listening: Listening, asked: Asked)
    ensures
        accepting(Listening::Tls, asked) != AcceptStep::TakePlain,
        accepting(listening, asked) == AcceptStep::TakePlain ==> listening == Listening::Plain
            && asked == Asked::Connection,
{
}

// ---------------------------------------------------------------------------
// Looking ahead

/// Whether the two bytes that start a frame have arrived.
#[derive(Debug, Clone, Copy, PartialEq, Eq, Structural)]
pub enum Probe {
    /// The connection has ended.
    Closed,
    /// Fewer than two bytes are there right now.
    Pending,
    /// At least two bytes are there: a frame is waiting.
    Ready,
}

/// What came of looking at the next two bytes of a plain connection without taking them.
#[derive(Debug, Clone, Copy, PartialEq, Eq, Structural)]
pub enum Peeked {
    /// This many are there.
    Bytes(usize),
    /// None yet.
    Idle,
    /// Looking failed.
    Failed,
}

/// What came of reading up to two bytes from a TLS connection.
pub enum Ahead {
    /// These bytes; none where the connection has ended.
    Bytes(Vec<u8>),
    /// None yet.
    Idle,
    /// Reading failed.
    Failed,
}

/// The bytes that were read ahead.
pub open spec fn ahead_bytes(a: Ahead) -> Seq<u8> {
    match a {
        Ahead::Bytes(b) => b@,
        _ => Seq::empty(),
    }
}

/// What a plain connection has.
pub fn probe_plain(peeked: Peeked) -> (r: Probe)
    ensures
        r == (match peeked {
            Peeked::Bytes(n) => if n == 0 {
                Probe::Closed
            } else if n < 2 {
                Probe::Pending
            } else {
                Probe::Ready
            },
            Peeked::Idle => Probe::Pending,
            Peeked::Failed => Probe::Closed,
        }),
{
    match peeked {
        Peeked::Bytes(n) => {
            if n == 0 {
                Probe::Closed
            } else if n < 2 {
                Probe::Pending
            } else {
                Probe::Ready
            }
        },
        Peeked::Idle => Probe::Pending,
        Peeked::Failed => Probe::Closed,
    }
}

/// The bytes that were read ahead of their time from a TLS connection, which cannot be looked at
/// without being taken. They are the first that the next read gets.
pub struct ReadAhead {
    buf: VecDeque<u8>,
}

impl View for ReadAhead {
    type V = Seq<u8>;

    closed spec fn view(&self) -> Seq<u8> {
        self.buf@
    }
}

/// What a TLS connection has, given what is held back and what was read on top of it: a frame where
/// that is two bytes or more. With fewer, a failure ends it, and so does a read of no bytes.
pub open spec fn probing(held: Seq<u8>, a: Ahead) -> Probe {
    if held.len() + ahead_bytes(a).len() >= 2 {
        Probe::Ready
    } else if a is Failed || (a is Bytes && ahead_bytes(a).len() == 0) {
        Probe::Closed
    } else {
        Probe::Pending
    }
}

impl ReadAhead {
    /// Nothing was read ahead.
    pub fn new() -> (r: Self)
        ensures
            r@ == Seq::<u8>::empty(),
    {
        ReadAhead { buf: VecDeque::new() }
    }

    /// Whether anything is held back.
    pub fn is_empty(&self) -> (r: bool)
        ensures
            r == (self@.len() == 0),
    {
        self.buf.len() == 0
    }

    /// Whether a probe is answered without reading.
    pub fn is_ready(&self) -> (r: bool)
        ensures
            r == (self@.len() >= 2),
    {
        self.buf.len() >= 2
    }

    /// Answers a probe for which bytes were read ahead, and holds them back.
    pub fn probe_header(&mut self, ahead: Ahead) -> (r: Probe)
        ensures
            r == probing(old(self)@, ahead),
            final(self)@ == old(self)@ + ahead_bytes(ahead),
    {
        let held: usize = self.buf.len();
        match ahead {
            Ahead::Bytes(b) => {
                let n: usize = b.len();
                let ghost before = self.buf@;
                let mut i: usize = 0;
                while i < n
                    invariant
                        i <= n == b@.len(),
                        self.buf@ == before + b@.take(i as int),
                    decreases n - i,
                {
                    self.buf.push_back(b[i]);
                    i += 1;
                    assert(b@.take(i as int) =~= b@.take(i - 1).push(b@[i - 1]));
                }
                assert(b@.take(i as int) =~= b@);
                if held >= 2 || n >= 2 || (held == 1 && n == 1) {
                    Probe::Ready
                } else if n == 0 {
                    Probe::Closed
                } else {
                    Probe::Pending
                }
            },
            Ahead::Idle => {
                assert(self.buf@ + Seq::<u8>::empty() =~= self.buf@);
                if held >= 2 {
                    Probe::Ready
                } else {
                    Probe::Pending
                }
            },
            Ahead::Failed => {
                assert(self.buf@ + Seq::<u8>::empty() =~= self.buf@);
                if held >= 2 {
                    Probe::Ready
                } else {
                    Probe::Closed
                }
            },
        }
    }

    /// Takes up to `max` of the bytes that are held back, the first ones first.
    pub fn read(&mut self, max: usize) -> (r: Vec<u8>)
        ensures
            r@ == old(self)@.take(held_part(old(self)@, max as int)),
            final(self)@ == old(self)@.skip(held_part(old(self)@, max as int)),
    {
        let ghost before = self.buf@;
        let mut out: Vec<u8> = Vec::new();
        assert(before.take(0) =~= Seq::<u8>::empty());
        assert(before.skip(0) =~= before);
        let mut n: usize = 0;
        let all: usize = self.buf.len();
        while n < max && n < all
            invariant
                n <= max,
                n <= all == before.len(),
                out@ == before.take(n as int),
                self.buf@ == before.skip(n as int),
            decreases max - n,
        {
            match self.buf.pop_front() {
                Some(b) => {
                    out.push(b);
                },
                None => {},
            }
            n += 1;
            assert(before.take(n as int) =~= before.take(n - 1).push(before[n - 1]));
            assert(before.skip(n as int) =~= before.skip(n - 1).skip(1));
        }
        out
    }
}

/// How many of the bytes that are held back a read of `max` takes.
pub open spec fn held_part(held: Seq<u8>, max: int) -> int {
    if max < held.len() {
        max
    } else {
        held.len() as int
    }
}

/// What happens to a connection whose bytes may be read ahead.
pub enum Look {
    /// It is probed, and these bytes are read ahead.
    Probed(Seq<u8>),
    /// At most this many bytes are read from what is held back.
    Read(nat),
    /// Nothing is held back, and these bytes are read from the connection itself.
    Passed(Seq<u8>),
}

/// What is held back after `looks`.
pub open spec fn held_after(looks: Seq<Look>) -> Seq<u8>
    decreases looks.len(),
{
    if looks.len() == 0 {
        Seq::empty()
    } else {
        let held = held_after(looks.drop_last());
        match looks.last() {
            Look::Probed(b) => held + b,
            Look::Read(n) => held.skip(held_part(held, n as int)),
            Look::Passed(_) => held,
        }
    }
}

/// What the reader got during `looks`.
pub open spec fn got(looks: Seq<Look>) -> Seq<u8>
    decreases looks.len(),
{
    if looks.len() == 0 {
        Seq::empty()
    } else {
        let before = got(looks.drop_last());
        let held = held_after(looks.drop_last());
        match looks.last() {
            Look::Probed(_) => before,
            Look::Read(n) => before + held.take(held_part(held, n as int)),
            Look::Passed(b) => before + b,
        }
    }
}

/// What the connection gave during `looks`.
pub open spec fn gave(looks: Seq<Look>) -> Seq<u8>
    decreases looks.len(),
{
    if looks.len() == 0 {
        Seq::empty()
    } else {
        let before = gave(looks.drop_last());
        match looks.last() {
            Look::Probed(b) => before + b,
            Look::Read(_) => before,
            Look::Passed(b) => before + b,
        }
    }
}

/// Whether the connection itself is read only where nothing is held back.
pub open spec fn in_order(looks: Seq<Look>) -> bool
    decreases looks.len(),
{
    looks.len() == 0 || (in_order(looks.drop_last()) && (looks.last() is Passed ==> held_after(
        looks.drop_last(),
    ).len() == 0))
}

/// Probing takes nothing away: what the reader got, and what is held back for it, is exactly what
/// the connection gave, in order.
pub proof fn probing_loses_nothing(looks: Seq<Look>)
    requires
        in_order(looks),
    ensures
        got(looks) + held_after(looks) == gave(looks),
    decreases looks.len(),
{
    if looks.len() == 0 {
        assert(got(looks) + held_after(looks) =~= gave(looks));
    } else {
        let before = looks.drop_last();
        probing_loses_nothing(before);
        let held = held_after(before);
        match looks.last() {
            Look::Probed(b) => {
                assert(got(looks) + held_after(looks) =~= (got(before) + held) + b);
            },
            Look::Read(n) => {
                assert(got(looks) + held_after(looks) =~= got(before) + held);
            },
            Look::Passed(b) => {
                assert(got(before) + held =~= got(before));
                assert(got(looks) + held_after(looks) =~= got(before) + b);
            },
        }
    }
}

// ---------------------------------------------------------------------------
// The state of a server

/// What a server keeps between calls. `L` is a listener and `S` a connection.
pub struct Server<L, S> {
    listeners: Slots<L>,
    conns: Slots<S>,
    current: Option<S>,
    request: Request,
    message: String,
    opcode: u8,
    kind: i32,
    client: i32,
    payload: String,
}

/// The last event of a server.
pub struct EventView {
    pub kind: i32,
    pub client: i32,
    pub payload: Seq<char>,
}

/// What a server keeps between calls, over sequences.
pub struct ServerView<L, S> {
    pub listeners: Seq<Option<L>>,
    /// The WebSocket connections.
    pub conns: Seq<Option<S>>,
    /// The connection whose request waits for its response.
    pub current: Option<S>,
    /// The last request.
    pub request: RequestView,
    /// The last message of a WebSocket.
    pub message: Seq<char>,
    /// The opcode of the last frame of a WebSocket.
    pub opcode: u8,
    /// The last event.
    pub event: EventView,
}

impl<L, S> View for Server<L, S> {
    type V = ServerView<L, S>;

    closed spec fn view(&self) -> ServerView<L, S> {
        ServerView {
            listeners: self.listeners@,
            conns: self.conns@,
            current: self.current,
            request: self.request@,
            message: self.message@,
            opcode: self.opcode,
            event: EventView { kind: self.kind, client: self.client, payload: self.payload@ },
        }
    }
}

/// A request about which nothing is known.
pub open spec fn no_request() -> RequestView {
    RequestView {
        method: Seq::empty(),
        path: Seq::empty(),
        headers: Seq::empty(),
        body: Seq::empty(),
    }
}

impl<L, S> Server<L, S> {
    /// A server that nothing has happened to.
    pub fn new() -> (r: Self)
        ensures
            r@ == (ServerView::<L, S> {
                listeners: Seq::empty(),
                conns: Seq::empty(),
                current: None,
                request: no_request(),
                message: Seq::empty(),
                opcode: 0,
                event: EventView { kind: (-1) as i32, client: (-1) as i32, payload: Seq::empty() },
            }),
    {
        let r = Server {
            listeners: Slots::new(),
            conns: Slots::new(),
            current: None,
            request: Request {
                method: String::new(),
                path: String::new(),
                headers: String::new(),
                body: String::new(),
            },
            message: String::new(),
            opcode: 0,
            kind: -1,
            client: -1,
            payload: String::new(),
        };
        assert(r@.request.method =~= Seq::<char>::empty());
        assert(r@.request.path =~= Seq::<char>::empty());
        assert(r@.request.headers =~= Seq::<char>::empty());
        assert(r@.request.body =~= Seq::<char>::empty());
        assert(r@.message =~= Seq::<char>::empty());
        assert(r@.event.payload =~= Seq::<char>::empty());
        r
    }

    /// The listener of a handle.
    pub fn listener(&self, handle: i64) -> (r: Option<&L>)
        ensures
            match r {
                Some(l) => slots::slot(self@.listeners, handle as i32) == Some(*l),
                None => slots::slot(self@.listeners, handle as i32) is None,
            },
    {
        self.listeners.get(#[verifier::truncate] (handle as i32))
    }

    /// The connection of a WebSocket client.
    pub fn stream_mut(&mut self, handle: i64) -> (r: Option<&mut S>)
        ensures
            match r {
                Some(s) => {
                    &&& slots::slot(old(self)@.conns, handle as i32) == Some(*s)
                    &&& final(self)@ == (ServerView {
                        conns: old(self)@.conns.update(handle as i32 as int, Some(*final(s))),
                        ..old(self)@
                    })
                },
                None => slots::slot(old(self)@.conns, handle as i32) is None && final(self)@
                    == old(self)@,
            },
    {
        self.conns.get_mut(#[verifier::truncate] (handle as i32))
    }
}

/// Registers a listener that was bound, if it was. Returns its handle, or -1.
pub fn bind_listener<L, S>(server: &mut Server<L, S>, bound: Option<L>) -> (r: i64)
    ensures
        match bound {
            Some(l) => r == old(server)@.listeners.len() as i64 && final(server)@ == (ServerView {
                listeners: old(server)@.listeners.push(Some(l)),
                ..old(server)@
            }),
            None => r == -1 && final(server)@ == old(server)@,
        },
{
    match bound {
        Some(l) => {
            let i: usize = server.listeners.append(l);
            #[verifier::truncate] (i as i64)
        },
        None => -1,
    }
}

/// Closes a listener. Returns it, to be dropped.
pub fn n_tcp_close<L, S>(server: &mut Server<L, S>, handle: i64) -> (r: Option<L>)
    ensures
        r == slots::slot(old(server)@.listeners, handle as i32),
        final(server)@ == (if r is Some {
            ServerView {
                listeners: old(server)@.listeners.update(handle as i32 as int, None),
                ..old(server)@
            }
        } else {
            old(server)@
        }),
{
    server.listeners.release(#[verifier::truncate] (handle as i32))
}

// ---------------------------------------------------------------------------
// Requests

/// Takes in a connection that was accepted, if one was, with the request that was read from it, if
/// one was. With a request, it waits for the response; without, it is dropped. Returns whether
/// there is a request.
pub fn n_tcp_accept<L, S>(
    server: &mut Server<L, S>,
    accepted: Option<S>,
    request: Option<Request>,
) -> (r: bool)
    ensures
        match (accepted, request) {
            (Some(s), Some(q)) => r && final(server)@ == (ServerView {
                current: Some(s),
                request: q@,
                ..old(server)@
            }),
            _ => !r && final(server)@ == old(server)@,
        },
{
    match (accepted, request) {
        (Some(s), Some(q)) => {
            server.current = Some(s);
            server.request = q;
            true
        },
        _ => false,
    }
}

/// The method of the last request.
pub fn n_tcp_method<L, S>(server: &Server<L, S>) -> (r: &str)
    ensures
        r@ == server@.request.method,
{
    server.request.method.as_str()
}

/// The path of the last request.
pub fn n_tcp_path<L, S>(server: &Server<L, S>) -> (r: &str)
    ensures
        r@ == server@.request.path,
{
    server.request.path.as_str()
}

/// The body of the last request.
pub fn n_tcp_body<L, S>(server: &Server<L, S>) -> (r: &str)
    ensures
        r@ == server@.request.body,
{
    server.request.body.as_str()
}

/// The header lines of the last request, each followed by a line feed.
pub fn n_tcp_headers<L, S>(server: &Server<L, S>) -> (r: &str)
    ensures
        r@ == server@.request.headers,
{
    server.request.headers.as_str()
}

/// Gives out the connection that waits for its response, which is written to it before it is
/// dropped.
pub fn send_and_close<L, S>(server: &mut Server<L, S>) -> (r: Option<S>)
    ensures
        r == old(server)@.current,
        final(server)@ == (ServerView { current: None, ..old(server)@ }),
{
    let mut taken: Option<S> = None;
    std::mem::swap(&mut taken, &mut server.current);
    taken
}

// ---------------------------------------------------------------------------
// WebSockets

/// A connection that is to become a WebSocket: the response is to be written to it.
pub struct Upgrade<S> {
    pub stream: S,
    pub response: String,
}

/// Whether a connection is to become a WebSocket: it is, with the response to the key in the
/// headers, where they hold one.
pub open spec fn upgrades<S>(stream: S, headers: Seq<char>, r: Option<Upgrade<S>>) -> bool {
    match r {
        Some(u) => u.stream == stream && handshake::client_key(headers) is Some && u.response@
            == handshake::upgrade_response(handshake::client_key(headers)->0),
        None => handshake::client_key(headers) is None,
    }
}

/// Starts to turn the connection that waits for its response into a WebSocket: where its request
/// holds a key, it waits no longer. A request that is no handshake still waits for its response.
pub fn n_ws_upgrade<L, S>(server: &mut Server<L, S>) -> (r: Option<Upgrade<S>>)
    ensures
        match (old(server)@.current, handshake::client_key(old(server)@.request.headers)) {
            (Some(s), Some(_)) => {
                &&& r is Some
                &&& upgrades(s, old(server)@.request.headers, r)
                &&& final(server)@ == (ServerView { current: None, ..old(server)@ })
            },
            _ => r is None && final(server)@ == old(server)@,
        },
{
    match ws_upgrade(server.request.headers.as_str()) {
        Some(response) => match send_and_close(server) {
            Some(stream) => Some(Upgrade { stream, response }),
            None => None,
        },
        None => None,
    }
}

/// Registers a WebSocket behind all others, if its response was written. Returns its handle, or -1.
pub fn upgraded<L, S>(server: &mut Server<L, S>, stream: Option<S>) -> (r: i64)
    ensures
        match stream {
            Some(s) => r == old(server)@.conns.len() as i64 && final(server)@ == (ServerView {
                conns: old(server)@.conns.push(Some(s)),
                ..old(server)@
            }),
            None => r == -1 && final(server)@ == old(server)@,
        },
{
    match stream {
        Some(s) => {
            let i: usize = server.conns.append(s);
            #[verifier::truncate] (i as i64)
        },
        None => -1,
    }
}

/// A frame that was read from a WebSocket.
pub struct Frame {
    pub opcode: u8,
    pub payload: Vec<u8>,
}

/// What came of a frame.
pub struct Reply {
    /// Whether it was a message, which is now the last one.
    pub ok: bool,
    /// Whether the next frame is to be read, and taken in like this one.
    pub again: bool,
    /// Bytes to be written in reply.
    pub pong: Option<Vec<u8>>,
}

/// Whether a frame carries data; the others are about the connection itself.
pub open spec fn is_data(opcode: u8) -> bool {
    opcode < 8
}

/// Takes in the next frame of a WebSocket, if there is one. A frame with data becomes the last
/// message, a close ends it, and any other frame is followed by the next, a ping with an answer.
/// Whatever it is, its opcode becomes the last one.
pub fn n_ws_recv<L, S>(server: &mut Server<L, S>, handle: i64, frame: Option<Frame>) -> (r: Reply)
    ensures
        match (frame, slots::slot(old(server)@.conns, handle as i32)) {
            (Some(f), Some(_)) => {
                &&& r.ok == is_data(f.opcode)
                &&& r.again == (!is_data(f.opcode) && f.opcode != OP_CLOSE)
                &&& bytes_of(r.pong) == (if f.opcode == OP_PING {
                    Some(frame::plain_frame(OP_PONG, f.payload@))
                } else {
                    None
                })
                &&& final(server)@ == (ServerView {
                    message: if is_data(f.opcode) {
                        text::utf8_lossy(f.payload@)
                    } else {
                        old(server)@.message
                    },
                    opcode: f.opcode,
                    ..old(server)@
                })
            },
            _ => !r.ok && !r.again && r.pong is None && final(server)@ == old(server)@,
        },
{
    if !server.conns.active(#[verifier::truncate] (handle as i32)) {
        return Reply { ok: false, again: false, pong: None };
    }
    match frame {
        Some(f) => {
            server.opcode = f.opcode;
            if f.opcode < 8 {
                server.message = from_utf8_lossy(f.payload.as_slice());
                Reply { ok: true, again: false, pong: None }
            } else if f.opcode == OP_CLOSE {
                Reply { ok: false, again: false, pong: None }
            } else if f.opcode == OP_PING {
                let pong = encode_plain(OP_PONG, f.payload.as_slice());
                Reply { ok: false, again: true, pong: Some(pong) }
            } else {
                Reply { ok: false, again: true, pong: None }
            }
        },
        None => Reply { ok: false, again: false, pong: None },
    }
}

/// The last message of a WebSocket.
pub fn n_ws_message<L, S>(server: &Server<L, S>) -> (r: &str)
    ensures
        r@ == server@.message,
{
    server.message.as_str()
}

/// The opcode of the last frame of a WebSocket: 1 for text, 2 for binary, 8 for a close, 9 for a
/// ping, 10 for a pong.
pub fn n_ws_opcode<L, S>(server: &Server<L, S>) -> (r: i64)
    ensures
        r == server@.opcode,
{
    server.opcode as i64
}

/// The bytes to be written to a WebSocket for a payload to be sent, where there is such a
/// WebSocket.
pub open spec fn outgoing<S>(
    conns: Seq<Option<S>>,
    handle: i32,
    opcode: u8,
    payload: Seq<u8>,
) -> Option<Seq<u8>> {
    if slots::slot(conns, handle) is Some {
        Some(frame::plain_frame(opcode, payload))
    } else {
        None
    }
}

/// The bytes in an optional buffer.
pub open spec fn bytes_of(b: Option<Vec<u8>>) -> Option<Seq<u8>> {
    match b {
        Some(v) => Some(v@),
        None => None,
    }
}

/// Sends a text message.
pub fn n_ws_send<L, S>(server: &Server<L, S>, handle: i64, msg: &[u8]) -> (r: Option<Vec<u8>>)
    ensures
        bytes_of(r) == outgoing(server@.conns, handle as i32, OP_TEXT, msg@),
{
    if server.conns.active(#[verifier::truncate] (handle as i32)) {
        Some(encode_plain(OP_TEXT, msg))
    } else {
        None
    }
}

/// Sends a binary message.
pub fn n_ws_send_binary<L, S>(server: &Server<L, S>, handle: i64, msg: &[u8]) -> (r: Option<
    Vec<u8>,
>)
    ensures
        bytes_of(r) == outgoing(server@.conns, handle as i32, OP_BINARY, msg@),
{
    if server.conns.active(#[verifier::truncate] (handle as i32)) {
        Some(encode_plain(OP_BINARY, msg))
    } else {
        None
    }
}

/// Closes a WebSocket. Gives out its connection with the bytes of a close frame, which are written
/// to it before it is dropped.
pub fn n_ws_close<L, S>(server: &mut Server<L, S>, handle: i64) -> (r: Option<(S, Vec<u8>)>)
    ensures
        match r {
            Some((s, bytes)) => {
                &&& slots::slot(old(server)@.conns, handle as i32) == Some(s)
                &&& bytes@ == frame::plain_frame(OP_CLOSE, Seq::empty())
                &&& final(server)@ == (ServerView {
                    conns: old(server)@.conns.update(handle as i32 as int, None),
                    ..old(server)@
                })
            },
            None => {
                &&& slots::slot(old(server)@.conns, handle as i32) is None
                &&& final(server)@ == old(server)@
            },
        },
{
    match server.conns.release(#[verifier::truncate] (handle as i32)) {
        Some(s) => {
            let nothing: Vec<u8> = Vec::new();
            assert(nothing@ =~= Seq::<u8>::empty());
            Some((s, encode_plain(OP_CLOSE, nothing.as_slice())))
        },
        None => None,
    }
}

/// How many places there are for WebSockets, empty ones among them.
pub fn n_ws_clients_len<L, S>(server: &Server<L, S>) -> (r: i64)
    ensures
        r == server@.conns.len() as i64,
{
    let n: usize = server.conns.len();
    #[verifier::truncate] (n as i64)
}

/// Whether there is a WebSocket at a place.
pub fn n_ws_client_active<L, S>(server: &Server<L, S>, id: i64) -> (r: bool)
    ensures
        r == slots::slot(server@.conns, id as i32) is Some,
{
    server.conns.active(#[verifier::truncate] (id as i32))
}

/// The places of the WebSockets below `n`, in order.
pub open spec fn active_places<S>(conns: Seq<Option<S>>, n: int) -> Seq<i32>
    decreases n,
{
    if n <= 0 {
        Seq::empty()
    } else if conns[n - 1] is Some {
        active_places(conns, n - 1).push((n - 1) as i32)
    } else {
        active_places(conns, n - 1)
    }
}

/// How many places can be told apart by a handle.
pub open spec fn reachable<S>(conns: Seq<Option<S>>) -> int {
    if conns.len() <= 0x8000_0000 {
        conns.len() as int
    } else {
        0x8000_0000
    }
}

/// A message to every WebSocket: to which ones, and the bytes.
pub struct Broadcast {
    pub targets: Vec<i32>,
    pub bytes: Vec<u8>,
}

/// Sends a text message to every WebSocket.
pub fn n_ws_broadcast<L, S>(server: &Server<L, S>, msg: &[u8]) -> (r: Broadcast)
    ensures
        r.targets@ == active_places(server@.conns, reachable(server@.conns)),
        r.bytes@ == frame::plain_frame(OP_TEXT, msg@),
{
    let n: usize = if server.conns.len() <= 0x8000_0000 {
        server.conns.len()
    } else {
        0x8000_0000
    };
    let mut targets: Vec<i32> = Vec::new();
    assert(targets@ =~= active_places(server@.conns, 0));
    let mut i: usize = 0;
    while i < n
        invariant
            i <= n == reachable(server@.conns),
            n <= 0x8000_0000,
            n <= server@.conns.len(),
            targets@ == active_places(server@.conns, i as int),
        decreases n - i,
    {
        if server.conns.active(i as i32) {
            targets.push(i as i32);
        }
        i += 1;
    }
    Broadcast { targets, bytes: encode_plain(OP_TEXT, msg) }
}

/// How many of the writes of a broadcast worked.
pub open spec fn successes(results: Seq<bool>) -> nat
    decreases results.len(),
{
    if results.len() == 0 {
        0
    } else if results.last() {
        successes(results.drop_last()) + 1
    } else {
        successes(results.drop_last())
    }
}

/// Counts the writes of a broadcast that worked.
pub fn broadcast_count(results: &[bool]) -> (r: usize)
    ensures
        r == successes(results@),
{
    let mut count: usize = 0;
    let mut i: usize = 0;
    assert(results@.take(0) =~= Seq::<bool>::empty());
    while i < results.len()
        invariant
            i <= results@.len(),
            count <= i,
            count == successes(results@.take(i as int)),
        decreases results@.len() - i,
    {
        if results[i] {
            count += 1;
        }
        i += 1;
        assert(results@.take(i as int).drop_last() =~= results@.take(i - 1));
    }
    assert(results@.take(i as int) =~= results@);
    count
}

// ---------------------------------------------------------------------------
// The event pump

/// What came of looking for a new connection.
#[derive(Debug, Clone, Copy, PartialEq, Eq, Structural)]
pub enum AcceptOutcome {
    /// A WebSocket client, with its id.
    Pending(i32),
    /// A plain request, whose connection waits for its response.
    Http,
    /// Nothing was waiting.
    NoneYet,
    /// An error.
    Error,
}

/// A connection that was accepted, or why there is none.
pub enum Incoming<S> {
    /// Nothing was waiting.
    Nothing,
    /// Accepting it, or its TLS handshake, failed.
    Failed,
    /// A connection, with the request that was read from it, if one was.
    Connection(S, Option<Request>),
}

/// What to do about a connection.
pub enum Admission<S> {
    /// Nothing more.
    Settled(AcceptOutcome),
    /// Write the response and report it with `admitted`.
    Upgrade(Upgrade<S>),
}

/// Takes in a connection: a request that does not ask for a WebSocket waits for its response, one
/// that does is to be answered, and anything else is an error.
pub fn try_accept_inner<L, S>(server: &mut Server<L, S>, incoming: Incoming<S>) -> (r: Admission<S>)
    ensures
        match incoming {
            Incoming::Nothing => r == Admission::<S>::Settled(AcceptOutcome::NoneYet)
                && final(server)@ == old(server)@,
            Incoming::Failed => r == Admission::<S>::Settled(AcceptOutcome::Error)
                && final(server)@ == old(server)@,
            Incoming::Connection(_, None) => r == Admission::<S>::Settled(AcceptOutcome::Error)
                && final(server)@ == old(server)@,
            Incoming::Connection(s, Some(q)) => if !handshake::asks_for_upgrade(q@.headers) {
                r == Admission::<S>::Settled(AcceptOutcome::Http) && final(server)@ == (ServerView {
                    current: Some(s),
                    request: q@,
                    ..old(server)@
                })
            } else {
                &&& final(server)@ == old(server)@
                &&& match r {
                    Admission::Upgrade(u) => upgrades(s, q@.headers, Some(u)),
                    Admission::Settled(o) => o == AcceptOutcome::Error && upgrades(
                        s,
                        q@.headers,
                        None,
                    ),
                }
            },
        },
{
    match incoming {
        Incoming::Nothing => Admission::Settled(AcceptOutcome::NoneYet),
        Incoming::Failed => Admission::Settled(AcceptOutcome::Error),
        Incoming::Connection(stream, request) => match request {
            None => Admission::Settled(AcceptOutcome::Error),
            Some(q) => {
                if !wants_websocket(q.headers.as_str()) {
                    server.request = q;
                    server.current = Some(stream);
                    Admission::Settled(AcceptOutcome::Http)
                } else {
                    match ws_upgrade(q.headers.as_str()) {
                        Some(response) => Admission::Upgrade(Upgrade { stream, response }),
                        None => Admission::Settled(AcceptOutcome::Error),
                    }
                }
            },
        },
    }
}

/// Registers a WebSocket at the first empty place, if its response was written.
pub fn admitted<L, S>(server: &mut Server<L, S>, stream: Option<S>) -> (r: AcceptOutcome)
    ensures
        match stream {
            Some(s) => r == AcceptOutcome::Pending(slots::first_free(old(server)@.conns) as i32)
                && final(server)@ == (ServerView {
                conns: slots::placed(old(server)@.conns, s),
                ..old(server)@
            }),
            None => r == AcceptOutcome::Error && final(server)@ == old(server)@,
        },
{
    match stream {
        Some(s) => {
            let i: usize = server.conns.place(s);
            AcceptOutcome::Pending(#[verifier::truncate] (i as i32))
        },
        None => AcceptOutcome::Error,
    }
}

/// What looking for a new WebSocket client comes to: its id, -1 where nothing was waiting, -2 for
/// an error or a plain request.
pub fn n_ws_accept_nonblocking(outcome: AcceptOutcome) -> (r: i64)
    ensures
        r == (match outcome {
            AcceptOutcome::Pending(id) => id as int,
            AcceptOutcome::NoneYet => -1,
            AcceptOutcome::Http => -2,
            AcceptOutcome::Error => -2,
        }),
{
    match outcome {
        AcceptOutcome::Pending(id) => id as i64,
        AcceptOutcome::NoneYet => -1,
        AcceptOutcome::Http => -2,
        AcceptOutcome::Error => -2,
    }
}

/// What came of reading a frame from a client.
pub enum ReadOutcome {
    /// No frame is there yet.
    NoData,
    /// The connection has ended, or what it sent is no frame that can be taken.
    Closed,
    /// A frame.
    Frame(Frame),
}

/// Why a part of a frame could not be read.
#[derive(Debug, Clone, Copy, PartialEq, Eq, Structural)]
pub enum Stop {
    /// It did not arrive in time.
    Idle,
    /// The connection has ended or failed.
    Ended,
}

/// What to do for a frame to be read.
pub enum ReadStep {
    /// Read this many bytes more, and ask again with them.
    More(u64),
    /// Nothing more.
    Settled(ReadOutcome),
}

/// A payload above this is not taken from a client: its frame counts as the end of the connection.
pub const PAYLOAD_LIMIT: u64 = 67_108_864;

/// Reads a frame from a client part by part: `input` is what was read of it so far, and `stopped`
/// says why the next part could not be read, if it could not. A client that has sent nothing yet
/// may still send; one that stops within a frame, or announces a payload above the limit, is closed.
pub fn ws_read_frame_detailed(input: &[u8], stopped: Option<Stop>) -> (r: ReadStep)
    ensures
        match frame::decode(input@, PAYLOAD_LIMIT as int) {
            frame::Decoding::More(n) => match stopped {
                None => r == ReadStep::More(n as u64),
                Some(Stop::Idle) if input@.len() == 0 => r == ReadStep::Settled(
                    ReadOutcome::NoData,
                ),
                Some(_) => r == ReadStep::Settled(ReadOutcome::Closed),
            },
            frame::Decoding::TooLong => r == ReadStep::Settled(ReadOutcome::Closed),
            frame::Decoding::Whole { opcode, payload, consumed: _ } => {
                r matches ReadStep::Settled(ReadOutcome::Frame(f)) && f.opcode == opcode
                    && f.payload@ == payload
            },
        },
{
    match decode_frame(input, PAYLOAD_LIMIT) {
        Decoded::More(n) => match stopped {
            None => ReadStep::More(n),
            Some(Stop::Idle) => {
                if input.len() == 0 {
                    ReadStep::Settled(ReadOutcome::NoData)
                } else {
                    ReadStep::Settled(ReadOutcome::Closed)
                }
            },
            Some(Stop::Ended) => ReadStep::Settled(ReadOutcome::Closed),
        },
        Decoded::TooLong => ReadStep::Settled(ReadOutcome::Closed),
        Decoded::Whole { opcode, payload, consumed: _ } => ReadStep::Settled(
            ReadOutcome::Frame(Frame { opcode, payload }),
        ),
    }
}

/// What a client has for the server.
pub enum PollOutcome {
    /// Nothing.
    NoData,
    /// A message.
    Frame(String),
    /// It is gone.
    Disconnected,
}

/// What to do for a client to be polled.
pub enum ClientStep {
    /// Nothing more.
    Settled(PollOutcome),
    /// Read a frame and report it with `client_read`.
    Read,
    /// Write these bytes and probe the client again.
    Pong(Vec<u8>),
    /// Probe the client again.
    Again,
}

/// Goes on with a client that was probed.
pub fn client_probed(probe: Probe) -> (r: ClientStep)
    ensures
        r == (match probe {
            Probe::Closed => ClientStep::Settled(PollOutcome::Disconnected),
            Probe::Pending => ClientStep::Settled(PollOutcome::NoData),
            Probe::Ready => ClientStep::Read,
        }),
{
    match probe {
        Probe::Closed => ClientStep::Settled(PollOutcome::Disconnected),
        Probe::Pending => ClientStep::Settled(PollOutcome::NoData),
        Probe::Ready => ClientStep::Read,
    }
}

/// Goes on with a client from which a frame was read: text or binary is a message, a close ends it,
/// and any other frame is passed over, a ping with an answer.
pub fn client_read(outcome: ReadOutcome) -> (r: ClientStep)
    ensures
        match outcome {
            ReadOutcome::NoData => r == ClientStep::Settled(PollOutcome::NoData),
            ReadOutcome::Closed => r == ClientStep::Settled(PollOutcome::Disconnected),
            ReadOutcome::Frame(f) => if f.opcode == OP_CLOSE {
                r == ClientStep::Settled(PollOutcome::Disconnected)
            } else if f.opcode == OP_PING {
                r matches ClientStep::Pong(p) && p@ == frame::plain_frame(OP_PONG, f.payload@)
            } else if f.opcode != OP_TEXT && f.opcode != OP_BINARY {
                r == ClientStep::Again
            } else {
                r matches ClientStep::Settled(PollOutcome::Frame(t)) && t@ == text::utf8_lossy(
                    f.payload@,
                )
            },
        },
{
    match outcome {
        ReadOutcome::NoData => ClientStep::Settled(PollOutcome::NoData),
        ReadOutcome::Closed => ClientStep::Settled(PollOutcome::Disconnected),
        ReadOutcome::Frame(f) => {
            if f.opcode == OP_CLOSE {
                ClientStep::Settled(PollOutcome::Disconnected)
            } else if f.opcode == OP_PING {
                ClientStep::Pong(encode_plain(OP_PONG, f.payload.as_slice()))
            } else if f.opcode != OP_TEXT && f.opcode != OP_BINARY {
                ClientStep::Again
            } else {
                ClientStep::Settled(PollOutcome::Frame(from_utf8_lossy(f.payload.as_slice())))
            }
        },
    }
}

/// What the pump does next.
#[derive(Debug, Clone, Copy, PartialEq, Eq, Structural)]
pub enum PumpStep {
    /// There is an event.
    Event,
    /// There is none.
    Nothing,
    /// Poll this client and report it with `pump_polled`.
    Poll(i32),
}

/// The first WebSocket at a place from `from` on.
pub open spec fn next_active<S>(conns: Seq<Option<S>>, from: int) -> PumpStep
    decreases conns.len() - from,
{
    if from < 0 || from >= conns.len() || from >= 0x8000_0000 {
        PumpStep::Nothing
    } else if conns[from] is Some {
        PumpStep::Poll(from as i32)
    } else {
        next_active(conns, from + 1)
    }
}

/// The event of a new client.
pub const KIND_CONNECTED: i32 = 0;

/// The event of a message.
pub const KIND_MESSAGE: i32 = 1;

/// The event of a client that is gone.
pub const KIND_DISCONNECTED: i32 = 2;

/// The event of a plain request.
pub const KIND_HTTP: i32 = 3;

impl<L, S> Server<L, S> {
    fn find_active(&self, from: usize) -> (r: PumpStep)
        ensures
            r == next_active(self@.conns, from as int),
    {
        let mut i: usize = from;
        while i < self.conns.len() && i < 0x8000_0000
            invariant
                from <= i,
                next_active(self@.conns, from as int) == next_active(self@.conns, i as int),
            decreases self@.conns.len() - i,
        {
            if self.conns.active(i as i32) {
                return PumpStep::Poll(i as i32);
            }
            i += 1;
        }
        PumpStep::Nothing
    }
}

/// Starts to look for the next event, given what came of looking for a new connection: that is an
/// event of its own, or else the clients are polled, the lowest id first.
pub fn n_ws_next_event<L, S>(server: &mut Server<L, S>, outcome: AcceptOutcome) -> (r: PumpStep)
    ensures
        match outcome {
            AcceptOutcome::Pending(id) => r == PumpStep::Event && final(server)@ == (ServerView {
                event: EventView { kind: KIND_CONNECTED, client: id, payload: Seq::empty() },
                ..old(server)@
            }),
            AcceptOutcome::Http => r == PumpStep::Event && final(server)@ == (ServerView {
                event: EventView {
                    kind: KIND_HTTP,
                    client: (-1) as i32,
                    payload: old(server)@.request.path,
                },
                ..old(server)@
            }),
            _ => r == next_active(old(server)@.conns, 0) && final(server)@ == old(server)@,
        },
{
    match outcome {
        AcceptOutcome::Pending(id) => {
            server.kind = KIND_CONNECTED;
            server.client = id;
            server.payload = String::new();
            assert(server.payload@ =~= Seq::<char>::empty());
            PumpStep::Event
        },
        AcceptOutcome::Http => {
            server.kind = KIND_HTTP;
            server.client = -1;
            server.payload = server.request.path.clone();
            PumpStep::Event
        },
        AcceptOutcome::NoneYet => server.find_active(0),
        AcceptOutcome::Error => server.find_active(0),
    }
}

/// Goes on after a client was polled: what it had is the event, and a client that is gone gives up
/// its place; a client that had nothing is followed by the next.
pub fn pump_polled<L, S>(server: &mut Server<L, S>, id: i32, outcome: PollOutcome) -> (r: PumpStep)
    requires
        id >= 0,
    ensures
        match outcome {
            PollOutcome::NoData => r == next_active(old(server)@.conns, id + 1) && final(server)@
                == old(server)@,
            PollOutcome::Frame(t) => r == PumpStep::Event && final(server)@ == (ServerView {
                event: EventView { kind: KIND_MESSAGE, client: id, payload: t@ },
                ..old(server)@
            }),
            PollOutcome::Disconnected => r == PumpStep::Event && final(server)@ == (ServerView {
                conns: if slots::slot(old(server)@.conns, id) is Some {
                    old(server)@.conns.update(id as int, None)
                } else {
                    old(server)@.conns
                },
                event: EventView {
                    kind: KIND_DISCONNECTED,
                    client: id,
                    payload: Seq::empty(),
                },
                ..old(server)@
            }),
        },
{
    match outcome {
        PollOutcome::NoData => server.find_active(id as usize + 1),
        PollOutcome::Frame(t) => {
            server.kind = KIND_MESSAGE;
            server.client = id;
            server.payload = t;
            PumpStep::Event
        },
        PollOutcome::Disconnected => {
            let _ = server.conns.release(id);
            server.kind = KIND_DISCONNECTED;
            server.client = id;
            server.payload = String::new();
            assert(server.payload@ =~= Seq::<char>::empty());
            PumpStep::Event
        },
    }
}

/// The kind of the last event: 0 for a new client, 1 for a message, 2 for a client that is gone, 3
/// for a plain request, -1 before the first.
pub fn n_ws_event_kind<L, S>(server: &Server<L, S>) -> (r: i64)
    ensures
        r == server@.event.kind,
{
    server.kind as i64
}

/// The client of the last event, -1 where it has none.
pub fn n_ws_event_client_id<L, S>(server: &Server<L, S>) -> (r: i64)
    ensures
        r == server@.event.client,
{
    server.client as i64
}

/// The payload of the last event: a message, or the path of a plain request.
pub fn n_ws_event_payload<L, S>(server: &Server<L, S>) -> (r: &str)
    ensures
        r@ == server@.event.payload,
{
    server.payload.as_str()
}

/// How long to sleep, in milliseconds, if at all.
pub fn n_ws_idle_sleep_ms(ms: i64) -> (r: Option<u64>)
    ensures
        r == (if (ms as i32) > 0 {
            Some((ms as i32) as u64)
        } else {
            None
        }),
{
    let ms: i32 = #[verifier::truncate] (ms as i32);
    if ms > 0 {
        Some(ms as u64)
    } else {
        None
    }
}

// ---------------------------------------------------------------------------
// Laws

/// The pump passes over no client: whatever client comes next, there is none between it and where
/// the search began.
pub proof fn pump_skips_nobody<S>(conns: Seq<Option<S>>, from: int, i: int)
    requires
        0 <= from <= i < conns.len(),
        i < 0x8000_0000,
        conns[i] is Some,
    ensures
        next_active(conns, from) matches PumpStep::Poll(id) && from <= id <= i
            && conns[id as int] is Some,
    decreases i - from,
{
    if from < i && conns[from] is None {
        pump_skips_nobody(conns, from + 1, i);
    }
}

/// Every broadcast goes to every client, once each: a place is among the targets exactly where
/// there is a WebSocket.
pub proof fn broadcasts_reach_everybody<S>(conns: Seq<Option<S>>, n: int, id: i32)
    requires
        0 <= n <= conns.len(),
        n <= 0x8000_0000,
    ensures
        active_places(conns, n).contains(id) <==> 0 <= id < n && conns[id as int] is Some,
        active_places(conns, n).no_duplicates(),
        forall|k: int|
            0 <= k < active_places(conns, n).len() ==> 0 <= #[trigger] active_places(conns, n)[k]
                < n,
    decreases n,
{
    if n > 0 {
        broadcasts_reach_everybody(conns, n - 1, id);
        let before = active_places(conns, n - 1);
        let all = active_places(conns, n);
        if conns[n - 1] is Some {
            let last = (n - 1) as i32;
            assert(all == before.push(last));
            if id == last {
                assert(all[before.len() as int] == id);
            } else if before.contains(id) {
                let k = choose|k: int| 0 <= k < before.len() && before[k] == id;
                assert(all[k] == id);
            } else if all.contains(id) {
                let k = choose|k: int| 0 <= k < all.len() && all[k] == id;
                assert(before[k] == id);
            }
            assert forall|a: int, b: int|
                0 <= a < all.len() && 0 <= b < all.len() && a != b implies all[a] != all[b] by {
                if a < before.len() && b < before.len() {
                    assert(before[a] != before[b]);
                }
            }
        }
    }
}

/// A client that is admitted takes a place that was empty or new; every other client keeps its own.
pub proof fn admitted_clients_keep_their_place<S>(conns: Seq<Option<S>>, s: S, i: int)
    requires
        0 <= i < conns.len(),
        conns[i] is Some,
    ensures
        slots::placed(conns, s)[i] == conns[i],
        slots::placed(conns, s)[slots::first_free(conns)] == Some(s),
        slots::first_free(conns) != i,
{
    slots::lemma_first_free(conns);
    slots::placing_disturbs_nothing(conns, s, i);
}

/// A listener binds to the address that it is given, or to every interface where it is given none,
/// and to its port.
pub proof fn listeners_bind_where_they_are_told(addr: &str, port: u32)
    ensures
        addr@.len() > 0 ==> bind_text(Some(addr), port) == addr@ + seq![':'] + text::decimal(
            port as nat,
        ),
        addr@.len() == 0 ==> bind_text(Some(addr), port) == "0.0.0.0:"@ + text::decimal(
            port as nat,
        ),
        bind_text(None, port) == "0.0.0.0:"@ + text::decimal(port as nat),
{
    reveal_strlit(":");
    reveal_strlit("0.0.0.0");
    reveal_strlit("0.0.0.0:");
    assert(":"@ =~= seq![':']);
    assert("0.0.0.0"@ + ":"@ =~= "0.0.0.0:"@);
}

/// What is decided about a connection: nothing without a listener or where none waits, an error
/// where asking failed, and else it is taken as it is or after a TLS handshake, as its listener is.
pub proof fn connections_are_taken_as_their_listener_is(listening: Listening, asked: Asked)
    ensures
        accepting(Listening::Missing, asked) == AcceptStep::NothingPending,
        accepting(listening, Asked::WouldBlock) == AcceptStep::NothingPending,
        listening != Listening::Missing ==> accepting(listening, Asked::Failed)
            == AcceptStep::Error,
        accepting(Listening::Plain, Asked::Connection) == AcceptStep::TakePlain,
        accepting(Listening::Tls, Asked::Connection) == AcceptStep::Handshake,
{
}

/// What a probe says: a frame is waiting exactly where two bytes or more are there; with fewer, the
/// connection has ended where reading failed or gave nothing, and may go on otherwise.
pub proof fn probes_count_every_byte(held: Seq<u8>, b: Vec<u8>)
    ensures
        ahead_bytes(Ahead::Bytes(b)) == b@,
        ahead_bytes(Ahead::Idle).len() == 0,
        ahead_bytes(Ahead::Failed).len() == 0,
        probing(held, Ahead::Bytes(b)) == (if held.len() + b@.len() >= 2 {
            Probe::Ready
        } else if b@.len() == 0 {
            Probe::Closed
        } else {
            Probe::Pending
        }),
        probing(held, Ahead::Idle) == (if held.len() >= 2 {
            Probe::Ready
        } else {
            Probe::Pending
        }),
        probing(held, Ahead::Failed) == (if held.len() >= 2 {
            Probe::Ready
        } else {
            Probe::Closed
        }),
{
}

/// A read takes as much of what is held back as it asks for, or all of it.
pub proof fn reads_take_what_is_held(held: Seq<u8>, max: nat)
    ensures
        max <= held.len() ==> held_part(held, max as int) == max,
        max > held.len() ==> held_part(held, max as int) == held.len(),
{
}

/// Whatever is sent to a WebSocket goes out as one frame that holds every byte of it: a client that
/// reads it gets the opcode and the payload. Nothing goes out where there is no WebSocket.
pub proof fn messages_go_out_whole<S>(
    conns: Seq<Option<S>>,
    handle: i32,
    opcode: u8,
    payload: Seq<u8>,
)
    requires
        opcode < 16,
        payload.len() <= u64::MAX,
    ensures
        0 <= handle < conns.len() && conns[handle as int] is Some ==> (outgoing(
            conns,
            handle,
            opcode,
            payload,
        ) matches Some(bytes) && frame::decode(bytes, u64::MAX as int) == (frame::Decoding::Whole {
            opcode,
            payload,
            consumed: bytes.len() as int,
        })),
        !(0 <= handle < conns.len() && conns[handle as int] is Some) ==> outgoing(
            conns,
            handle,
            opcode,
            payload,
        ) is None,
{
    let rest = Seq::<u8>::empty();
    frame::plain_frames_round_trip(opcode, payload, rest, u64::MAX as int);
    let bytes = frame::plain_frame(opcode, payload);
    assert(bytes + rest =~= bytes);
}

/// A connection is upgraded exactly where its request holds a key, with the response to that key,
/// and stays the connection that it is.
pub proof fn upgrades_answer_the_key<S>(stream: S, headers: Seq<char>, r: Option<Upgrade<S>>)
    requires
        upgrades(stream, headers, r),
    ensures
        match handshake::client_key(headers) {
            Some(key) => r matches Some(u) && u.stream == stream && u.response@
                == handshake::upgrade_response(key),
            None => r is None,
        },
{
}

/// Frames with data are those below the frames that are about the connection.
pub proof fn data_is_told_from_control(opcode: u8)
    ensures
        is_data(opcode) <==> opcode < 8,
        is_data(OP_TEXT) && is_data(OP_BINARY),
        !is_data(OP_CLOSE) && !is_data(OP_PING) && !is_data(OP_PONG),
{
}

/// A broadcast goes to its targets in the order of their places, and every place that a handle can
/// tell apart is looked at.
pub proof fn broadcasts_go_in_order<S>(conns: Seq<Option<S>>, n: int, a: int, b: int)
    requires
        0 <= n <= conns.len(),
        n <= 0x8000_0000,
        0 <= a < b < active_places(conns, n).len(),
    ensures
        active_places(conns, n)[a] < active_places(conns, n)[b],
        reachable(conns) == if conns.len() < 0x8000_0000 {
            conns.len() as int
        } else {
            0x8000_0000
        },
    decreases n,
{
    if n > 0 {
        let before = active_places(conns, n - 1);
        broadcasts_reach_everybody(conns, n - 1, 0);
        if b < before.len() {
            broadcasts_go_in_order(conns, n - 1, a, b);
        }
    }
}

/// Every write of a broadcast that worked is counted, once, and no other.
pub proof fn every_success_is_counted(results: Seq<bool>)
    ensures
        successes(results) == results.filter(|ok: bool| ok).len(),
    decreases results.len(),
{
    reveal(Seq::filter);
    if results.len() > 0 {
        every_success_is_counted(results.drop_last());
    }
}

/// Where the pump finds no client, there is none from where it began.
pub proof fn pump_stops_when_nobody_is_left<S>(conns: Seq<Option<S>>, from: int, i: int)
    requires
        0 <= from,
        next_active(conns, from) == PumpStep::Nothing,
        from <= i < conns.len(),
        i < 0x8000_0000,
    ensures
        conns[i] is None,
{
    if conns[i] is Some {
        pump_skips_nobody(conns, from, i);
    }
}

/// The pump finds a client or none, and is never done with an event of its own; the client that it
/// finds is the first.
pub proof fn pump_finds_the_first<S>(conns: Seq<Option<S>>, from: int, id: i32, i: int)
    requires
        0 <= from,
        next_active(conns, from) == PumpStep::Poll(id),
    ensures
        next_active(conns, from) != PumpStep::Event,
        from <= id < conns.len(),
        conns[id as int] is Some,
        from <= i < id ==> conns[i] is None,
{
    lemma_next_active(conns, from);
    if from <= i < id && conns[i] is Some {
        pump_skips_nobody(conns, from, i);
    }
}

proof fn lemma_next_active<S>(conns: Seq<Option<S>>, from: int)
    requires
        0 <= from,
    ensures
        match next_active(conns, from) {
            PumpStep::Poll(id) => from <= id < conns.len() && conns[id as int] is Some,
            PumpStep::Nothing => true,
            PumpStep::Event => false,
        },
    decreases conns.len() - from,
{
    if from < conns.len() && from < 0x8000_0000 && conns[from] is None {
        lemma_next_active(conns, from + 1);
    }
}

/// A client may send up to 64 MiB in one frame: every such frame is taken whole.
pub proof fn large_payloads_are_taken(opcode: u8, payload: Seq<u8>, mask: Seq<u8>, rest: Seq<u8>)
    requires
        opcode < 16,
        mask.len() == 4,
        payload.len() <= 64 * 1024 * 1024,
    ensures
        frame::decode(
            frame::masked_frame(opcode, payload, mask) + rest,
            PAYLOAD_LIMIT as int,
        ) matches frame::Decoding::Whole { opcode: o, payload: p, .. } && o == opcode && p
            == payload,
        PAYLOAD_LIMIT == 64 * 1024 * 1024,
{
    frame::masked_frames_round_trip(opcode, payload, mask, rest, PAYLOAD_LIMIT as int);
}

/// The kinds of events are told apart by their numbers.
pub proof fn events_are_numbered()
    ensures
        KIND_CONNECTED == 0 && KIND_MESSAGE == 1 && KIND_DISCONNECTED == 2 && KIND_HTTP == 3,
{
}

/// Of a request about which nothing is known, nothing is said.
pub proof fn unknown_requests_are_empty()
    ensures
        no_request().method.len() == 0 && no_request().path.len() == 0,
        no_request().headers.len() == 0 && no_request().body.len() == 0,
{
}

/// An optional buffer is seen as every byte of it.
pub proof fn buffers_are_seen_as_they_are(b: Vec<u8>)
    ensures
        bytes_of(Some(b)) == Some(b@),
        bytes_of(None) is None,
{
}

} // verus!
