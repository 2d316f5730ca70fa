//! WebSocket sessions on the side of the client. A session outlives its connection: when the
//! connection is lost it is opened again, ever more slowly while the server stays away, and only
//! `close` ends the session.
//!
//! The functions decide and keep the books. Opening a connection and moving bytes is left to the
//! caller, who is told what to do next and reports what came of it.
use crate::frame;
use crate::frame::{encode_masked, OP_BINARY, OP_CLOSE, OP_PING, OP_PONG, OP_TEXT};
use crate::handshake;
use crate::handshake::{mask_from, parse_ws_url};
use crate::text;
use crate::text::{append_bytes, from_utf8_lossy};
use std::collections::VecDeque;
use vstd::prelude::*;
use vstd::utf8;

verus! {

// ---------------------------------------------------------------------------
// Backoff

/// The last step of the backoff schedule.
pub const LAST_STEP: u64 = 6;

/// How long to wait after an attempt before the next one, in milliseconds, at a given step.
pub open spec fn backoff_ms(step: nat) -> nat {
    if step == 0 {
        100
    } else if step == 1 {
        250
    } else if step == 2 {
        500
    } else if step == 3 {
        1_000
    } else if step == 4 {
        2_500
    } else if step == 5 {
        5_000
    } else {
        10_000
    }
}

/// The step after a failure.
pub open spec fn next_step(step: nat) -> nat {
    if step >= LAST_STEP {
        LAST_STEP as nat
    } else {
        step + 1
    }
}

/// The wait at a given step of the schedule, in milliseconds.
pub fn backoff_delay(step: u64) -> (r: u64)
    ensures
        r == backoff_ms(step as nat),
{
    match step {
        0 => 100,
        1 => 250,
        2 => 500,
        3 => 1_000,
        4 => 2_500,
        5 => 5_000,
        _ => 10_000,
    }
}

// ---------------------------------------------------------------------------
// Sessions

/// One session: its connection while it has one, and what is needed to open it again.
pub struct Conn<S> {
    url: String,
    stream: Option<S>,
    inbox: VecDeque<Vec<u8>>,
    last_attempt: u64,
    backoff: u64,
}

/// One session, over sequences. Times are in nanoseconds.
pub struct ConnView<S> {
    pub url: Seq<char>,
    pub stream: Option<S>,
    pub inbox: Seq<Seq<u8>>,
    pub last_attempt: u64,
    pub step: nat,
}

impl<S> View for Conn<S> {
    type V = ConnView<S>;

    closed spec fn view(&self) -> ConnView<S> {
        ConnView {
            url: self.url@,
            stream: self.stream,
            inbox: self.inbox@.map_values(|m: Vec<u8>| m@),
            last_attempt: self.last_attempt,
            step: self.backoff as nat,
        }
    }
}

/// The table of sessions. A handle is a place in it; a place is never given out twice.
pub struct Sessions<S> {
    conns: Vec<Option<Conn<S>>>,
}

impl<S> View for Sessions<S> {
    type V = Seq<Option<ConnView<S>>>;

    closed spec fn view(&self) -> Seq<Option<ConnView<S>>> {
        self.conns@.map_values(
            |c: Option<Conn<S>>|
                match c {
                    Some(c) => Some(c@),
                    None => None,
                },
        )
    }
}

/// The session of a handle, while it is not closed.
pub open spec fn session<S>(all: Seq<Option<ConnView<S>>>, handle: i32) -> Option<ConnView<S>> {
    if 0 <= handle < all.len() {
        all[handle as int]
    } else {
        None
    }
}

impl<S> Sessions<S> {
    /// No session is further in the schedule than its last step.
    pub open spec fn wf(&self) -> bool {
        forall|i: int|
            0 <= i < self@.len() ==> (#[trigger] self@[i] matches Some(c) ==> c.step <= LAST_STEP)
    }

    /// An empty table.
    pub fn new() -> (r: Self)
        ensures
            r.wf(),
            r@ == Seq::<Option<ConnView<S>>>::empty(),
    {
        let r = Sessions { conns: Vec::new() };
        assert(r@ =~= Seq::<Option<ConnView<S>>>::empty());
        r
    }

    /// The place of a session that is not closed.
    fn place(&self, handle: i32) -> (r: Option<usize>)
        ensures
            match r {
                Some(i) => i == handle && i < self.conns@.len() && self.conns@[i as int] is Some
                    && session(self@, handle) == Some(self.conns@[i as int]->0@),
                None => session(self@, handle) is None,
            },
    {
        if handle < 0 || handle as usize >= self.conns.len() {
            return None;
        }
        let i: usize = handle as usize;
        match &self.conns[i] {
            Some(_) => Some(i),
            None => None,
        }
    }

    /// The connection of a session, while it is live.
    pub fn stream_mut(&mut self, handle: i32) -> (r: Option<&mut S>)
        ensures
            match r {
                Some(s) => session(old(self)@, handle) is Some && session(
                    old(self)@,
                    handle,
                )->0.stream == Some(*s) && final(self)@ == old(self)@.update(
                    handle as int,
                    Some(
                        ConnView { stream: Some(*final(s)), ..session(old(self)@, handle)->0 },
                    ),
                ),
                None => (session(old(self)@, handle) matches Some(c) ==> c.stream is None)
                    && final(self)@ == old(self)@,
            },
    {
        let i: usize = match self.place(handle) {
            Some(i) => i,
            None => {
                return None;
            },
        };
        match &mut self.conns[i] {
            Some(conn) => match &mut conn.stream {
                Some(s) => Some(s),
                None => None,
            },
            None => None,
        }
    }
}

// ---------------------------------------------------------------------------
// Connecting

/// What a session can do at a given time.
#[derive(Debug, Clone, Copy, PartialEq, Eq, Structural)]
pub enum Link {
    /// It is connected.
    Up,
    /// It is not connected, and it is too early for the next attempt.
    Wait,
    /// It is not connected, and an attempt is due.
    Retry,
}

/// How long ago `then` was.
pub open spec fn elapsed(then: u64, now: u64) -> int {
    if now >= then {
        now - then
    } else {
        0
    }
}

/// What a session can do at the time `now`.
pub open spec fn link<S>(c: ConnView<S>, now: u64) -> Link {
    if c.stream is Some {
        Link::Up
    } else if elapsed(c.last_attempt, now) < backoff_ms(c.step) * 1_000_000 {
        Link::Wait
    } else {
        Link::Retry
    }
}

/// A session after an attempt to connect.
pub open spec fn attempted<S>(c: ConnView<S>, opened: Option<S>, now: u64) -> ConnView<S> {
    match opened {
        Some(s) => ConnView { stream: Some(s), last_attempt: now, step: 0, ..c },
        None => ConnView { last_attempt: now, step: next_step(c.step), ..c },
    }
}

/// A session after its connection was lost.
pub open spec fn disconnected<S>(c: ConnView<S>, now: u64) -> ConnView<S> {
    ConnView { stream: None, last_attempt: now, step: next_step(c.step), ..c }
}

/// The sessions after an attempt to connect one of them, if it is not connected.
pub open spec fn after_attempt<S>(
    all: Seq<Option<ConnView<S>>>,
    handle: i32,
    opened: Option<S>,
    now: u64,
) -> Seq<Option<ConnView<S>>> {
    match session(all, handle) {
        Some(c) if c.stream is None => all.update(
            handle as int,
            Some(attempted(c, opened, now)),
        ),
        _ => all,
    }
}

impl<S> Conn<S> {
    /// What the session can do now.
    fn link_now(&self, now: u64) -> (r: Link)
        ensures
            r == link(self@, now),
    {
        if self.stream.is_some() {
            return Link::Up;
        }
        let past: u64 = if now >= self.last_attempt {
            now - self.last_attempt
        } else {
            0
        };
        if past < backoff_delay(self.backoff) * 1_000_000 {
            Link::Wait
        } else {
            Link::Retry
        }
    }

    /// Drops the connection and goes one step further in the schedule.
    fn mark_disconnected(&mut self, now: u64)
        requires
            old(self)@.step <= LAST_STEP,
        ensures
            final(self)@ == disconnected(old(self)@, now),
    {
        self.stream = None;
        self.last_attempt = now;
        if self.backoff < LAST_STEP {
            self.backoff += 1;
        }
    }

    /// Notes how an attempt to connect went.
    fn mark_attempted(&mut self, opened: Option<S>, now: u64)
        requires
            old(self)@.step <= LAST_STEP,
            old(self)@.stream is None,
        ensures
            final(self)@ == attempted(old(self)@, opened, now),
    {
        self.last_attempt = now;
        if opened.is_some() {
            self.stream = opened;
            self.backoff = 0;
        } else if self.backoff < LAST_STEP {
            self.backoff += 1;
        }
    }
}

/// Opens a session on `url`, with the connection that the first attempt gave, if any. Returns its
/// handle, or -1 where the address is malformed; a server that is not up yet is no reason to
/// refuse.
pub fn connect<S>(sessions: &mut Sessions<S>, url: &str, opened: Option<S>, now: u64) -> (r: i32)
    requires
        old(sessions).wf(),
    ensures
        final(sessions).wf(),
        match handshake::url_view(url@) {
            None => r == -1 && final(sessions)@ == old(sessions)@,
            Some(_) => r == old(sessions)@.len() as i32 && final(sessions)@ == old(sessions)@.push(
                Some(
                    ConnView {
                        url: url@,
                        stream: opened,
                        inbox: Seq::empty(),
                        last_attempt: now,
                        step: 0,
                    },
                ),
            ),
        },
{
    if parse_ws_url(url).is_none() {
        return -1;
    }
    let ghost before = sessions@;
    let conn = Conn {
        url: url.to_owned(),
        stream: opened,
        inbox: VecDeque::new(),
        last_attempt: now,
        backoff: 0,
    };
    assert(conn@.inbox =~= Seq::<Seq<u8>>::empty());
    let id: usize = sessions.conns.len();
    sessions.conns.push(Some(conn));
    assert(sessions@ =~= before.push(Some(conn@)));
    assert forall|i: int| 0 <= i < sessions@.len() implies (#[trigger] sessions@[i] matches Some(
        c,
    ) ==> c.step <= LAST_STEP) by {
        if i < before.len() {
            assert(sessions@[i] == before[i]);
        }
    }
    #[verifier::truncate] (id as i32)
}

/// The address to which a session that is due for an attempt is to be connected.
pub fn retry_url<S>(sessions: &Sessions<S>, handle: i32) -> (r: Option<String>)
    ensures
        match r {
            Some(u) => session(sessions@, handle) is Some && u@ == session(
                sessions@,
                handle,
            )->0.url,
            None => session(sessions@, handle) is None,
        },
{
    let i: usize = match sessions.place(handle) {
        Some(i) => i,
        None => {
            return None;
        },
    };
    match &sessions.conns[i] {
        Some(conn) => Some(conn.url.clone()),
        None => None,
    }
}

/// Notes how the attempt to connect a session went. Returns whether it is connected now.
pub fn retried<S>(
    sessions: &mut Sessions<S>,
    handle: i32,
    opened: Option<S>,
    now: u64,
) -> (r: bool)
    requires
        old(sessions).wf(),
    ensures
        final(sessions).wf(),
        r == (session(old(sessions)@, handle) matches Some(c) && (c.stream is Some
            || opened is Some)),
        final(sessions)@ == after_attempt(old(sessions)@, handle, opened, now),
{
    let i: usize = match sessions.place(handle) {
        Some(i) => i,
        None => {
            return false;
        },
    };
    let ghost before = sessions@;
    let up: bool = opened.is_some();
    assert(sessions@[i as int] is Some);
    let r = match &mut sessions.conns[i] {
        Some(conn) => {
            if conn.stream.is_some() {
                true
            } else {
                conn.mark_attempted(opened, now);
                up
            }
        },
        None => false,
    };
    proof {
        let c = session(before, handle)->0;
        if c.stream is None {
            assert(sessions@ =~= before.update(handle as int, Some(attempted(c, opened, now))));
        } else {
            assert(sessions@ =~= before);
        }
    }
    r
}

// ---------------------------------------------------------------------------
// Sending

/// What to do for a message to be sent.
pub enum SendStep {
    /// Nothing: the session is closed, or not connected and too early for an attempt.
    Refused,
    /// Open the connection, report it with `retried`, and ask again.
    Retry,
    /// Write these bytes and report it with `sent`.
    Write(Vec<u8>),
}

/// What to do for a message to be sent, over sequences.
pub enum SendView {
    Refused,
    Retry,
    Write(Seq<u8>),
}

impl View for SendStep {
    type V = SendView;

    open spec fn view(&self) -> SendView {
        match self {
            SendStep::Refused => SendView::Refused,
            SendStep::Retry => SendView::Retry,
            SendStep::Write(b) => SendView::Write(b@),
        }
    }
}

/// What to do for `payload` to be sent as a frame, masked from `seed`.
pub open spec fn sending<S>(
    all: Seq<Option<ConnView<S>>>,
    handle: i32,
    opcode: u8,
    payload: Seq<u8>,
    seed: u64,
    now: u64,
) -> SendView {
    match session(all, handle) {
        Some(c) => match link(c, now) {
            Link::Up => SendView::Write(
                frame::masked_frame(opcode, payload, handshake::generated(seed, 4)),
            ),
            Link::Wait => SendView::Refused,
            Link::Retry => SendView::Retry,
        },
        None => SendView::Refused,
    }
}

/// Sends a payload as a frame.
fn send_with_opcode<S>(
    sessions: &Sessions<S>,
    handle: i32,
    opcode: u8,
    payload: &[u8],
    seed: u64,
    now: u64,
) -> (r: SendStep)
    ensures
        r@ == sending(sessions@, handle, opcode, payload@, seed, now),
{
    let i: usize = match sessions.place(handle) {
        Some(i) => i,
        None => {
            return SendStep::Refused;
        },
    };
    match &sessions.conns[i] {
        Some(conn) => match conn.link_now(now) {
            Link::Up => SendStep::Write(encode_masked(opcode, payload, mask_from(seed))),
            Link::Wait => SendStep::Refused,
            Link::Retry => SendStep::Retry,
        },
        None => SendStep::Refused,
    }
}

/// Sends a text message.
pub fn send<S>(sessions: &Sessions<S>, handle: i32, msg: &str, seed: u64, now: u64) -> (r: SendStep)
    ensures
        r@ == sending(sessions@, handle, OP_TEXT, utf8::encode_utf8(msg@), seed, now),
{
    send_with_opcode(sessions, handle, OP_TEXT, msg.as_bytes(), seed, now)
}

/// Sends a binary message: any bytes.
pub fn send_binary<S>(
    sessions: &Sessions<S>,
    handle: i32,
    msg: &[u8],
    seed: u64,
    now: u64,
) -> (r: SendStep)
    ensures
        r@ == sending(sessions@, handle, OP_BINARY, msg@, seed, now),
{
    send_with_opcode(sessions, handle, OP_BINARY, msg, seed, now)
}

/// Notes whether the bytes of a message were written; where they were not, the connection is lost.
/// Returns whether the message was sent.
pub fn sent<S>(sessions: &mut Sessions<S>, handle: i32, ok: bool, now: u64) -> (r: bool)
    requires
        old(sessions).wf(),
    ensures
        final(sessions).wf(),
        r == ok,
        final(sessions)@ == (match session(old(sessions)@, handle) {
            Some(c) if !ok => old(sessions)@.update(handle as int, Some(disconnected(c, now))),
            _ => old(sessions)@,
        }),
{
    if !ok {
        drop_connection(sessions, handle, now);
    }
    ok
}

/// Marks a session as disconnected.
fn drop_connection<S>(sessions: &mut Sessions<S>, handle: i32, now: u64)
    requires
        old(sessions).wf(),
    ensures
        final(sessions).wf(),
        final(sessions)@ == (match session(old(sessions)@, handle) {
            Some(c) => old(sessions)@.update(handle as int, Some(disconnected(c, now))),
            None => old(sessions)@,
        }),
{
    let i: usize = match sessions.place(handle) {
        Some(i) => i,
        None => {
            return;
        },
    };
    let ghost before = sessions@;
    assert(sessions@[i as int] is Some);
    match &mut sessions.conns[i] {
        Some(conn) => {
            conn.mark_disconnected(now);
        },
        None => {},
    }
    proof {
        let c = session(before, handle)->0;
        assert(sessions@ =~= before.update(handle as int, Some(disconnected(c, now))));
    }
}

// ---------------------------------------------------------------------------
// Receiving

/// The last message that was delivered, and its opcode.
pub struct Latch {
    msg: Vec<u8>,
    op: u8,
}

/// The last message, over sequences.
pub struct LatchView {
    pub msg: Seq<u8>,
    pub op: u8,
}

impl View for Latch {
    type V = LatchView;

    closed spec fn view(&self) -> LatchView {
        LatchView { msg: self.msg@, op: self.op }
    }
}

impl Latch {
    /// No message yet.
    pub fn new() -> (r: Self)
        ensures
            r@ == (LatchView { msg: Seq::empty(), op: 0 }),
    {
        Latch { msg: Vec::new(), op: 0 }
    }
}

/// The bytes of the last message.
pub fn last_message(latch: &Latch) -> (r: Vec<u8>)
    ensures
        r@ == latch@.msg,
{
    let mut r: Vec<u8> = Vec::new();
    append_bytes(&mut r, latch.msg.as_slice());
    assert(r@ =~= latch.msg@);
    r
}

/// The opcode of the last message: 1 for text, 2 for binary, 0 before the first.
pub fn last_opcode(latch: &Latch) -> (r: u8)
    ensures
        r == latch@.op,
{
    latch.op
}

/// What to do for a message to be received.
#[derive(Debug, Clone, Copy, PartialEq, Eq, Structural)]
pub enum RecvStep {
    /// Nothing: the session is closed, or not connected and too early for an attempt.
    Refused,
    /// A message that was waiting has been delivered.
    Delivered,
    /// Open the connection, report it with `retried`, and ask again.
    Retry,
    /// Try to read a frame and report it with `received`.
    Read,
}

/// What to do for a message of this session to be received.
pub open spec fn receiving<S>(c: Option<ConnView<S>>, now: u64) -> RecvStep {
    match c {
        Some(c) => if c.inbox.len() > 0 {
            RecvStep::Delivered
        } else {
            match link(c, now) {
                Link::Up => RecvStep::Read,
                Link::Wait => RecvStep::Refused,
                Link::Retry => RecvStep::Retry,
            }
        },
        None => RecvStep::Refused,
    }
}

/// Whether `recv` leaves everything as it is, or else delivers the first waiting message of the
/// session.
pub open spec fn receive_effect<S>(
    before: Seq<Option<ConnView<S>>>,
    latch: LatchView,
    handle: i32,
    step: RecvStep,
    after: Seq<Option<ConnView<S>>>,
    latched: LatchView,
) -> bool {
    if step == RecvStep::Delivered {
        let c = session(before, handle)->0;
        &&& after == before.update(
            handle as int,
            Some(ConnView { inbox: c.inbox.skip(1), ..c }),
        )
        &&& latched == LatchView { msg: c.inbox[0], ..latch }
    } else {
        after == before && latched == latch
    }
}

/// Receives the next message of a session.
pub fn recv<S>(
    sessions: &mut Sessions<S>,
    latch: &mut Latch,
    handle: i32,
    now: u64,
) -> (r: RecvStep)
    requires
        old(sessions).wf(),
    ensures
        final(sessions).wf(),
        r == receiving(session(old(sessions)@, handle), now),
        receive_effect(
            old(sessions)@,
            old(latch)@,
            handle,
            r,
            final(sessions)@,
            final(latch)@,
        ),
{
    let i: usize = match sessions.place(handle) {
        Some(i) => i,
        None => {
            return RecvStep::Refused;
        },
    };
    let ghost before = sessions@;
    assert(sessions@[i as int] is Some);
    let (step, waiting): (RecvStep, Option<Vec<u8>>) = match &mut sessions.conns[i] {
        Some(conn) => {
            let ghost c = conn@;
            match conn.inbox.pop_front() {
                Some(msg) => {
                    assert(conn@.inbox =~= c.inbox.skip(1));
                    (RecvStep::Delivered, Some(msg))
                },
                None => match conn.link_now(now) {
                    Link::Up => (RecvStep::Read, None),
                    Link::Wait => (RecvStep::Refused, None),
                    Link::Retry => (RecvStep::Retry, None),
                },
            }
        },
        None => (RecvStep::Refused, None),
    };
    if let Some(msg) = waiting {
        latch.msg = msg;
        proof {
            let c = session(before, handle)->0;
            assert(sessions@ =~= before.update(
                handle as int,
                Some(ConnView { inbox: c.inbox.skip(1), ..c }),
            ));
        }
    } else {
        assert(sessions@ =~= before);
    }
    step
}

/// What came of a frame that was read.
pub struct Received {
    /// Whether it was a message, which is now the last one.
    pub delivered: bool,
    /// Bytes to be written in reply.
    pub reply: Option<Vec<u8>>,
}

/// The bytes that a frame delivers: those of a text with what is not valid UTF-8 replaced, those of
/// a binary frame as they are.
pub open spec fn delivery(opcode: u8, payload: Seq<u8>) -> Seq<u8> {
    if opcode == OP_TEXT {
        utf8::encode_utf8(text::utf8_lossy(payload))
    } else {
        payload
    }
}

/// Whether a frame is a message.
pub open spec fn is_message(opcode: u8) -> bool {
    opcode == OP_TEXT || opcode == OP_BINARY
}

/// The sessions after something with this opcode, or nothing, was read for one of them: a close
/// loses its connection.
pub open spec fn after_read<S>(
    all: Seq<Option<ConnView<S>>>,
    handle: i32,
    opcode: Option<u8>,
    now: u64,
) -> Seq<Option<ConnView<S>>> {
    match session(all, handle) {
        Some(c) if opcode == Some(OP_CLOSE) => all.update(
            handle as int,
            Some(disconnected(c, now)),
        ),
        _ => all,
    }
}

/// The opcode of what was read.
pub open spec fn opcode_of(frame: Option<(u8, Vec<u8>)>) -> Option<u8> {
    match frame {
        Some((opcode, _)) => Some(opcode),
        None => None,
    }
}

/// The bytes of a reply.
pub open spec fn reply_bytes(reply: Option<Vec<u8>>) -> Option<Seq<u8>> {
    match reply {
        Some(b) => Some(b@),
        None => None,
    }
}

/// Takes in what was read from the connection of a session: a frame, or nothing. A message is
/// delivered, a ping is answered, a close loses the connection; nothing else has an effect.
pub fn received<S>(
    sessions: &mut Sessions<S>,
    latch: &mut Latch,
    handle: i32,
    frame: Option<(u8, Vec<u8>)>,
    seed: u64,
    now: u64,
) -> (r: Received)
    requires
        old(sessions).wf(),
    ensures
        final(sessions).wf(),
        r.delivered == (frame matches Some((opcode, _)) && is_message(opcode)),
        final(latch)@ == (match frame {
            Some((opcode, payload)) if is_message(opcode) => LatchView {
                msg: delivery(opcode, payload@),
                op: opcode,
            },
            _ => old(latch)@,
        }),
        reply_bytes(r.reply) == (match frame {
            Some((opcode, payload)) if opcode == OP_PING => Some(
                frame::masked_frame(OP_PONG, payload@, handshake::generated(seed, 4)),
            ),
            _ => None,
        }),
        final(sessions)@ == after_read(old(sessions)@, handle, opcode_of(frame), now),
{
    match frame {
        Some((opcode, payload)) => {
            if opcode == OP_TEXT {
                let decoded = from_utf8_lossy(payload.as_slice());
                let mut msg: Vec<u8> = Vec::new();
                append_bytes(&mut msg, decoded.as_str().as_bytes());
                assert(msg@ =~= delivery(opcode, payload@));
                latch.msg = msg;
                latch.op = opcode;
                Received { delivered: true, reply: None }
            } else if opcode == OP_BINARY {
                latch.msg = payload;
                latch.op = opcode;
                Received { delivered: true, reply: None }
            } else if opcode == OP_PING {
                let pong = encode_masked(OP_PONG, payload.as_slice(), mask_from(seed));
                Received { delivered: false, reply: Some(pong) }
            } else {
                if opcode == OP_CLOSE {
                    drop_connection(sessions, handle, now);
                }
                Received { delivered: false, reply: None }
            }
        },
        None => Received { delivered: false, reply: None },
    }
}

// ---------------------------------------------------------------------------
// Closing

/// Ends a session. Where it is connected, its connection is handed out with the bytes of a close
/// frame, to be written before it is dropped.
pub fn close<S>(sessions: &mut Sessions<S>, handle: i32, seed: u64) -> (r: Option<(S, Vec<u8>)>)
    requires
        old(sessions).wf(),
    ensures
        final(sessions).wf(),
        match r {
            Some((s, bytes)) => session(old(sessions)@, handle) is Some && session(
                old(sessions)@,
                handle,
            )->0.stream == Some(s) && bytes@ == frame::masked_frame(
                OP_CLOSE,
                Seq::empty(),
                handshake::generated(seed, 4),
            ),
            None => session(old(sessions)@, handle) matches Some(c) ==> c.stream is None,
        },
        final(sessions)@ == (if session(old(sessions)@, handle) is Some {
            old(sessions)@.update(handle as int, None)
        } else {
            old(sessions)@
        }),
{
    let i: usize = match sessions.place(handle) {
        Some(i) => i,
        None => {
            return None;
        },
    };
    let ghost before = sessions@;
    assert(sessions@[i as int] is Some);
    let mut taken: Option<Conn<S>> = None;
    std::mem::swap(&mut taken, &mut sessions.conns[i]);
    assert(sessions@ =~= before.update(handle as int, None));
    match taken {
        Some(conn) => match conn.stream {
            Some(s) => {
                let nothing: Vec<u8> = Vec::new();
                assert(nothing@ =~= Seq::<u8>::empty());
                Some((s, encode_masked(OP_CLOSE, nothing.as_slice(), mask_from(seed))))
            },
            None => None,
        },
        None => None,
    }
}

// ---------------------------------------------------------------------------
// Groups

/// What to do for the next message of a group to be received.
#[derive(Debug, Clone, Copy, PartialEq, Eq, Structural)]
pub enum PollStep {
    /// Nothing: no session of the group has anything.
    Nothing,
    /// A message that was waiting for this handle has been delivered.
    Fired(i32),
    /// Open the connection of the handle at this turn, report it with `retried`, and ask again
    /// from the turn that `turn_after` gives.
    Retry(usize),
    /// Try to read a frame for the handle at this turn without waiting, report it with `received`,
    /// and unless it was a message, ask again from the turn that `turn_after` gives.
    Read(usize),
}

/// The handle whose turn is the `i`th of a round that starts at `offset`.
pub open spec fn turn(handles: Seq<i32>, offset: int, i: int) -> i32 {
    handles[(offset + i) % handles.len() as int]
}

/// What to do next in a round that starts at `offset`, from the turn `from` on: whatever the first
/// session needs that has something to do.
pub open spec fn polling<S>(
    all: Seq<Option<ConnView<S>>>,
    handles: Seq<i32>,
    offset: int,
    from: int,
    now: u64,
) -> PollStep
    decreases handles.len() - from,
{
    if 0 <= from < handles.len() {
        let h = turn(handles, offset, from);
        match receiving(session(all, h), now) {
            RecvStep::Refused => polling(all, handles, offset, from + 1, now),
            RecvStep::Delivered => PollStep::Fired(h),
            RecvStep::Retry => PollStep::Retry(from as usize),
            RecvStep::Read => PollStep::Read(from as usize),
        }
    } else {
        PollStep::Nothing
    }
}

/// Receives the next message of any of `handles`, in a round that starts at `offset`.
pub fn poll_group<S>(
    sessions: &mut Sessions<S>,
    latch: &mut Latch,
    handles: &[i32],
    offset: usize,
    from: usize,
    now: u64,
) -> (r: PollStep)
    requires
        old(sessions).wf(),
        offset + handles@.len() <= usize::MAX,
    ensures
        final(sessions).wf(),
        r == polling(old(sessions)@, handles@, offset as int, from as int, now),
        match r {
            PollStep::Fired(h) => receive_effect(
                old(sessions)@,
                old(latch)@,
                h,
                RecvStep::Delivered,
                final(sessions)@,
                final(latch)@,
            ),
            _ => final(sessions)@ == old(sessions)@ && final(latch)@ == old(latch)@,
        },
        r matches PollStep::Retry(at) ==> from <= at < handles@.len(),
        r matches PollStep::Read(at) ==> from <= at < handles@.len(),
{
    let n: usize = handles.len();
    let mut i: usize = from;
    while i < n
        invariant
            n == handles@.len(),
            from <= i,
            offset + n <= usize::MAX,
            sessions.wf(),
            sessions@ == old(sessions)@,
            latch@ == old(latch)@,
            polling(old(sessions)@, handles@, offset as int, from as int, now) == polling(
                old(sessions)@,
                handles@,
                offset as int,
                i as int,
                now,
            ),
        decreases n - i,
    {
        let h: i32 = handles[(offset + i) % n];
        match recv(sessions, latch, h, now) {
            RecvStep::Refused => {},
            RecvStep::Delivered => {
                return PollStep::Fired(h);
            },
            RecvStep::Retry => {
                return PollStep::Retry(i);
            },
            RecvStep::Read => {
                return PollStep::Read(i);
            },
        }
        i += 1;
    }
    PollStep::Nothing
}

/// The turn from which a round goes on after a step, given whether it opened a connection: the same
/// turn where it did, else the next.
pub open spec fn next_turn(step: PollStep, ok: bool) -> int {
    match step {
        PollStep::Retry(at) => if ok {
            at as int
        } else {
            at + 1
        },
        PollStep::Read(at) => at + 1,
        _ => arbitrary(),
    }
}

/// The turn from which to ask again after a step for which something was to be done outside, given
/// whether the connection to be opened was opened.
pub fn turn_after(step: PollStep, ok: bool) -> (r: usize)
    requires
        step is Retry || step is Read,
        step matches PollStep::Retry(at) ==> at < usize::MAX,
        step matches PollStep::Read(at) ==> at < usize::MAX,
    ensures
        r == next_turn(step, ok),
{
    match step {
        PollStep::Retry(at) => {
            if ok {
                at
            } else {
                at + 1
            }
        },
        PollStep::Read(at) => at + 1,
        _ => 0,
    }
}

/// A group of sessions that are received from in turn.
pub struct WsGroup {
    handles: Vec<i32>,
    offset: usize,
}

/// A group, over sequences.
pub struct GroupView {
    pub handles: Seq<i32>,
    /// Where the next round starts.
    pub offset: nat,
}

impl View for WsGroup {
    type V = GroupView;

    closed spec fn view(&self) -> GroupView {
        GroupView { handles: self.handles@, offset: self.offset as nat }
    }
}

impl WsGroup {
    /// A round starts at a place of the group.
    pub open spec fn wf(&self) -> bool {
        self@.offset < self@.handles.len() || self@.offset == 0
    }

    /// An empty group.
    pub fn new() -> (r: Self)
        ensures
            r.wf(),
            r@ == (GroupView { handles: Seq::empty(), offset: 0 }),
    {
        WsGroup { handles: Vec::new(), offset: 0 }
    }

    /// The handles of the group.
    pub fn handles(&self) -> (r: &[i32])
        ensures
            r@ == self@.handles,
    {
        self.handles.as_slice()
    }

    /// Where the next round starts.
    pub fn offset(&self) -> (r: usize)
        ensures
            r == self@.offset,
    {
        self.offset
    }
}

/// Empties a group.
pub fn n_ws_group_clear(group: &mut WsGroup)
    ensures
        final(group).wf(),
        final(group)@ == (GroupView { handles: Seq::empty(), offset: 0 }),
{
    group.handles.clear();
    group.offset = 0;
}

/// Adds a handle to a group.
pub fn n_ws_group_add(group: &mut WsGroup, handle: i64)
    requires
        old(group).wf(),
    ensures
        final(group).wf(),
        final(group)@ == (GroupView {
            handles: old(group)@.handles.push(handle as i32),
            ..old(group)@
        }),
{
    group.handles.push(#[verifier::truncate] (handle as i32));
}

/// Whether `p` is the first place of `h`.
pub open spec fn first_place(handles: Seq<i32>, h: i32, p: int) -> bool {
    0 <= p < handles.len() && handles[p] == h && forall|j: int| 0 <= j < p ==> handles[j] != h
}

/// Ends a round in which `fired` had a message, or none where it is -1: the next round starts
/// behind the handle that fired. Returns the handle.
pub fn n_ws_group_poll(group: &mut WsGroup, fired: i32) -> (r: i64)
    requires
        old(group).wf(),
    ensures
        final(group).wf(),
        r == fired,
        final(group)@.handles == old(group)@.handles,
        fired >= 0 ==> forall|p: int| #[trigger]
            first_place(old(group)@.handles, fired, p) ==> final(group)@.offset == (p + 1)
                % old(group)@.handles.len() as int,
        fired < 0 || !old(group)@.handles.contains(fired) ==> final(group)@ == old(group)@,
{
    if fired >= 0 {
        let n: usize = group.handles.len();
        let ghost all = group.handles@;
        let mut i: usize = 0;
        while i < n && group.handles[i] != fired
            invariant
                i <= n == group.handles@.len(),
                forall|j: int| 0 <= j < i ==> group.handles@[j] != fired,
                *group == *old(group),
            decreases n - i,
        {
            i += 1;
        }
        if i < n {
            assert(all.contains(fired)) by {
                assert(all[i as int] == fired);
            }
            assert forall|p: int| #[trigger] first_place(all, fired, p) implies p == i by {
                if p < i {
                    assert(all[p] != fired);
                } else if i < p {
                    assert(all[i as int] != fired);
                }
            }
            group.offset = if i == n - 1 {
                0
            } else {
                i + 1
            };
            proof {
                if i < n - 1 {
                    vstd::arithmetic::div_mod::lemma_small_mod((i + 1) as nat, n as nat);
                } else {
                    vstd::arithmetic::div_mod::lemma_mod_self_0(n as int);
                }
            }
        } else {
            assert(forall|p: int| !(#[trigger] first_place(all, fired, p)));
        }
    }
    fired as i64
}

// ---------------------------------------------------------------------------
// Laws

/// The waits of the schedule never shrink from one step to the next, start at a tenth of a second
/// and end at ten seconds.
pub proof fn backoff_grows_to_ten_seconds(step: nat)
    ensures
        backoff_ms(step) <= backoff_ms(step + 1),
        backoff_ms(step) <= backoff_ms(next_step(step)) || step > LAST_STEP,
        100 <= backoff_ms(step) <= 10_000,
        step >= LAST_STEP ==> backoff_ms(step) == 10_000,
{
}

/// After an attempt that failed, no other one is due until the wait of the next step is over, and
/// then one is.
pub proof fn failed_attempts_are_spaced<S>(c: ConnView<S>, t: u64, now: u64)
    requires
        c.stream is None,
        t <= now,
    ensures
        link(attempted(c, None, t), now) == (if now - t < backoff_ms(next_step(c.step))
            * 1_000_000 {
            Link::Wait
        } else {
            Link::Retry
        }),
{
}

/// The steps of `n` failures in a row.
pub open spec fn steps(step: nat, n: nat) -> nat
    decreases n,
{
    if n == 0 {
        step
    } else {
        next_step(steps(step, (n - 1) as nat))
    }
}

/// However often it fails, a session is never more than ten seconds from its next attempt, and
/// from the sixth failure in a row on it is tried every ten seconds.
pub proof fn repeated_failures_settle(step: nat, n: nat)
    requires
        step <= LAST_STEP,
    ensures
        steps(step, n) <= LAST_STEP,
        n >= LAST_STEP ==> backoff_ms(steps(step, n)) == 10_000,
        steps(step, n) == if step + n >= LAST_STEP {
            LAST_STEP as nat
        } else {
            step + n
        },
    decreases n,
{
    if n > 0 {
        repeated_failures_settle(step, (n - 1) as nat);
    }
}

/// A session that is connected again starts over: whatever came before, a loss is followed by the
/// second wait of the schedule, and the session keeps its address and what waits for it.
pub proof fn success_resets_the_schedule<S>(c: ConnView<S>, s: S, t: u64, now: u64)
    ensures
        link(attempted(c, Some(s), t), now) == Link::Up,
        attempted(c, Some(s), t).step == 0,
        disconnected(attempted(c, Some(s), t), now).step == 1,
        attempted(c, Some(s), t).url == c.url,
        attempted(c, Some(s), t).inbox == c.inbox,
        disconnected(c, now).url == c.url,
        disconnected(c, now).inbox == c.inbox,
{
}

/// What happens to a session while it lasts.
pub enum Turn<S> {
    /// An attempt to connect it, with the connection that it gave, if any.
    Attempted(Option<S>, u64),
    /// Its connection is lost.
    Lost(u64),
    /// A message that was waiting for it is delivered.
    Delivered,
}

/// A session after `turns`.
pub open spec fn session_after<S>(c: ConnView<S>, turns: Seq<Turn<S>>) -> ConnView<S>
    decreases turns.len(),
{
    if turns.len() == 0 {
        c
    } else {
        let before = session_after(c, turns.drop_last());
        match turns.last() {
            Turn::Attempted(opened, now) => attempted(before, opened, now),
            Turn::Lost(now) => disconnected(before, now),
            Turn::Delivered => ConnView { inbox: before.inbox.skip(1), ..before },
        }
    }
}

/// A session outlives its connections: however often they are lost and opened again, it keeps its
/// address, and it stays within the schedule.
pub proof fn sessions_outlive_connections<S>(c: ConnView<S>, turns: Seq<Turn<S>>)
    requires
        c.step <= LAST_STEP,
    ensures
        session_after(c, turns).url == c.url,
        session_after(c, turns).step <= LAST_STEP,
    decreases turns.len(),
{
    if turns.len() > 0 {
        sessions_outlive_connections(c, turns.drop_last());
    }
}

/// A round visits every place of the group once: the turns of a round are its places, in order,
/// from the offset on.
pub proof fn rounds_visit_every_place(n: int, offset: int, p: int) -> (i: int)
    requires
        0 <= offset < n,
        0 <= p < n,
    ensures
        0 <= i < n,
        (offset + i) % n == p,
        forall|j: int| 0 <= j < n && #[trigger] ((offset + j) % n) == p ==> j == i,
{
    let i = if p >= offset {
        p - offset
    } else {
        p - offset + n
    };
    assert forall|j: int| 0 <= j < n implies (#[trigger] ((offset + j) % n)) == (if offset + j < n {
        offset + j
    } else {
        offset + j - n
    }) by {
        if offset + j < n {
            vstd::arithmetic::div_mod::lemma_small_mod((offset + j) as nat, n as nat);
        } else {
            vstd::arithmetic::div_mod::lemma_mod_sub_multiples_vanish(offset + j, n);
            vstd::arithmetic::div_mod::lemma_small_mod((offset + j - n) as nat, n as nat);
        }
    }
    assert((offset + i) % n == p);
    i
}

/// A handle that fired has the last turn of the next round.
pub proof fn fired_handles_wait_their_turn(n: int, p: int)
    requires
        0 <= p < n,
    ensures
        ((p + 1) % n + (n - 1)) % n == p,
{
    let offset = (p + 1) % n;
    if p + 1 < n {
        vstd::arithmetic::div_mod::lemma_small_mod((p + 1) as nat, n as nat);
        vstd::arithmetic::div_mod::lemma_mod_sub_multiples_vanish(p + n, n);
        vstd::arithmetic::div_mod::lemma_small_mod(p as nat, n as nat);
    } else {
        vstd::arithmetic::div_mod::lemma_mod_self_0(n);
        vstd::arithmetic::div_mod::lemma_small_mod((n - 1) as nat, n as nat);
    }
}

/// What the outside does in a round, by turn.
pub struct Round<S> {
    pub handles: Seq<i32>,
    pub offset: int,
    /// The times at which the round is asked to go on, from this turn.
    pub asked: Seq<u64>,
    /// What attempts to connect open, and the times at which that is reported.
    pub attempts: Seq<(Option<S>, u64)>,
    /// The opcodes of the frames that are read, and the times at which they are reported.
    pub reads: Seq<(Option<u8>, u64)>,
}

/// The sessions after the attempt to connect at turn `i`.
pub open spec fn tried<S>(all: Seq<Option<ConnView<S>>>, round: Round<S>, i: int) -> Seq<
    Option<ConnView<S>>,
> {
    let (opened, now) = round.attempts[i];
    after_attempt(all, turn(round.handles, round.offset, i), opened, now)
}

/// The sessions after reading at turn `i`.
pub open spec fn took<S>(all: Seq<Option<ConnView<S>>>, round: Round<S>, i: int) -> Seq<
    Option<ConnView<S>>,
> {
    let (opcode, now) = round.reads[i];
    after_read(all, turn(round.handles, round.offset, i), opcode, now)
}

/// Whether a message is read at turn `i`.
pub open spec fn reads_message<S>(round: Round<S>, i: int) -> bool {
    round.reads[i].0 matches Some(opcode) && is_message(opcode)
}

/// The handle that a round gives, asked to go on from a turn at the time `now`: each step of
/// `polling` is done, what comes of it is reported, and `next_turn` says where to go on. After a
/// connection was opened, it is asked again at once.
pub open spec fn scanned<S>(
    all: Seq<Option<ConnView<S>>>,
    round: Round<S>,
    from: int,
    now: u64,
) -> Option<i32>
    decreases
            round.handles.len() - from,
            if session(all, turn(round.handles, round.offset, from)) matches Some(c)
                && c.stream is Some {
                0int
            } else {
                1
            },
    when round.handles.len() <= usize::MAX
    via scanned_decreases::<S>
{
    let step = polling(all, round.handles, round.offset, from, now);
    match step {
        PollStep::Nothing => None,
        PollStep::Fired(h) => Some(h),
        PollStep::Retry(at) => {
            let (opened, then) = round.attempts[at as int];
            let next = next_turn(step, opened is Some);
            if opened is Some {
                scanned(tried(all, round, at as int), round, next, then)
            } else {
                scanned(tried(all, round, at as int), round, next, round.asked[next])
            }
        },
        PollStep::Read(at) => if reads_message(round, at as int) {
            Some(turn(round.handles, round.offset, at as int))
        } else {
            let next = next_turn(step, false);
            scanned(took(all, round, at as int), round, next, round.asked[next])
        },
    }
}

#[via_fn]
proof fn scanned_decreases<S>(
    all: Seq<Option<ConnView<S>>>,
    round: Round<S>,
    from: int,
    now: u64,
) {
    lemma_polling_place(all, round.handles, round.offset, from, now);
}

/// A step that something is to be done for is that of the first turn whose session is not refused.
proof fn lemma_polling_place<S>(
    all: Seq<Option<ConnView<S>>>,
    handles: Seq<i32>,
    offset: int,
    from: int,
    now: u64,
)
    requires
        handles.len() <= usize::MAX,
    ensures
        match polling(all, handles, offset, from, now) {
            PollStep::Retry(at) => {
                &&& from <= at < handles.len()
                &&& receiving(session(all, turn(handles, offset, at as int)), now)
                    == RecvStep::Retry
            },
            PollStep::Read(at) => from <= at < handles.len(),
            _ => true,
        },
    decreases handles.len() - from,
{
    if 0 <= from < handles.len() {
        lemma_polling_place(all, handles, offset, from + 1, now);
    }
}

/// Whether a session has a message at its turn: one is waiting, or it is connected, or can be
/// connected now, and a message is read.
pub open spec fn has_message<S>(
    c: Option<ConnView<S>>,
    now: u64,
    opens: bool,
    reads: bool,
) -> bool {
    match c {
        Some(c) => c.inbox.len() > 0 || (reads && match link(c, now) {
            Link::Up => true,
            Link::Wait => false,
            Link::Retry => opens,
        }),
        None => false,
    }
}

/// Whether the session at turn `i` has a message at the time `now`.
pub open spec fn ready<S>(
    all: Seq<Option<ConnView<S>>>,
    round: Round<S>,
    i: int,
    now: u64,
) -> bool {
    has_message(
        session(all, turn(round.handles, round.offset, i)),
        now,
        round.attempts[i].0 is Some,
        reads_message(round, i),
    )
}

/// The sessions after a turn without a message: an attempt that was due was made, and what could be
/// read was read.
pub open spec fn passed<S>(
    all: Seq<Option<ConnView<S>>>,
    round: Round<S>,
    i: int,
    now: u64,
) -> Seq<Option<ConnView<S>>> {
    match receiving(session(all, turn(round.handles, round.offset, i)), now) {
        RecvStep::Read => took(all, round, i),
        RecvStep::Retry => if round.attempts[i].0 is Some {
            took(tried(all, round, i), round, i)
        } else {
            tried(all, round, i)
        },
        _ => all,
    }
}

/// The time at which the turn after `i` is asked: nothing was done outside for a session that was
/// refused, so it is the same time.
pub open spec fn time_after<S>(
    all: Seq<Option<ConnView<S>>>,
    round: Round<S>,
    i: int,
    now: u64,
) -> u64 {
    if receiving(session(all, turn(round.handles, round.offset, i)), now) == RecvStep::Refused {
        now
    } else {
        round.asked[i + 1]
    }
}

/// The first turn from `i` on whose session has a message, as the turns before it have left it.
pub open spec fn first_ready<S>(
    all: Seq<Option<ConnView<S>>>,
    round: Round<S>,
    i: int,
    now: u64,
) -> Option<int>
    decreases round.handles.len() - i,
{
    if 0 <= i < round.handles.len() {
        if ready(all, round, i, now) {
            Some(i)
        } else {
            first_ready(passed(all, round, i, now), round, i + 1, time_after(all, round, i, now))
        }
    } else {
        None
    }
}

/// A round gives the handle of the first turn whose session has a message, as the turns before it
/// have left it, and none where no session has one.
pub proof fn rounds_give_the_first_message<S>(
    all: Seq<Option<ConnView<S>>>,
    round: Round<S>,
    from: int,
    now: u64,
)
    requires
        round.handles.len() <= usize::MAX,
    ensures
        scanned(all, round, from, now) == (match first_ready(all, round, from, now) {
            Some(i) => Some(turn(round.handles, round.offset, i)),
            None => None,
        }),
    decreases round.handles.len() - from,
{
    if 0 <= from < round.handles.len() {
        let h = turn(round.handles, round.offset, from);
        let after = passed(all, round, from, now);
        let then = time_after(all, round, from, now);
        rounds_give_the_first_message(after, round, from + 1, then);
        match receiving(session(all, h), now) {
            RecvStep::Refused => {
                assert(scanned(all, round, from, now) == scanned(all, round, from + 1, now));
            },
            RecvStep::Retry => {
                if round.attempts[from].0 is Some {
                    let up = tried(all, round, from);
                    let at = round.attempts[from].1;
                    assert(receiving(session(up, h), at) == RecvStep::Read);
                    assert(polling(up, round.handles, round.offset, from, at) == PollStep::Read(
                        from as usize,
                    ));
                    assert(scanned(all, round, from, now) == scanned(up, round, from, at));
                }
            },
            _ => {},
        }
    }
}

/// The time at which turn `i` of a round is asked, each session taken as it was when the round
/// began.
pub open spec fn time_of<S>(all: Seq<Option<ConnView<S>>>, round: Round<S>, i: int) -> u64
    decreases i,
{
    if i <= 0 {
        round.asked[0]
    } else {
        time_after(all, round, i - 1, time_of(all, round, i - 1))
    }
}

/// Where the handles of a group are distinct, a round gives the handle of the first turn whose
/// session has a message, each taken as it was when the round began, and none where no session has
/// one.
pub proof fn distinct_handles_are_heard_in_order<S>(all: Seq<Option<ConnView<S>>>, round: Round<S>)
    requires
        round.handles.len() <= usize::MAX,
        round.handles.no_duplicates(),
    ensures
        match scanned(all, round, 0, round.asked[0]) {
            Some(h) => exists|i: int|
                {
                    &&& 0 <= i < round.handles.len()
                    &&& h == turn(round.handles, round.offset, i)
                    &&& #[trigger] ready(all, round, i, time_of(all, round, i))
                    &&& forall|j: int|
                        0 <= j < i ==> !#[trigger] ready(all, round, j, time_of(all, round, j))
                },
            None => forall|i: int|
                0 <= i < round.handles.len() ==> !#[trigger] ready(
                    all,
                    round,
                    i,
                    time_of(all, round, i),
                ),
        },
{
    rounds_give_the_first_message(all, round, 0, round.asked[0]);
    lemma_first_ready_at_start(all, all, round, 0);
}

/// Turns that were not had yet find their sessions as they were at the start, where the handles are
/// distinct.
proof fn lemma_first_ready_at_start<S>(
    start: Seq<Option<ConnView<S>>>,
    all: Seq<Option<ConnView<S>>>,
    round: Round<S>,
    i: int,
)
    requires
        round.handles.no_duplicates(),
        0 <= i <= round.handles.len(),
        forall|j: int|
            i <= j < round.handles.len() ==> session(
                all,
                #[trigger] turn(round.handles, round.offset, j),
            ) == session(start, turn(round.handles, round.offset, j)),
    ensures
        match first_ready(all, round, i, time_of(start, round, i)) {
            Some(k) => {
                &&& i <= k < round.handles.len()
                &&& ready(start, round, k, time_of(start, round, k))
                &&& forall|j: int|
                    i <= j < k ==> !#[trigger] ready(start, round, j, time_of(start, round, j))
            },
            None => forall|j: int|
                i <= j < round.handles.len() ==> !#[trigger] ready(
                    start,
                    round,
                    j,
                    time_of(start, round, j),
                ),
        },
    decreases round.handles.len() - i,
{
    if i < round.handles.len() {
        let now = time_of(start, round, i);
        let h = turn(round.handles, round.offset, i);
        assert(session(all, h) == session(start, h));
        assert(ready(all, round, i, now) == ready(start, round, i, now));
        if !ready(all, round, i, now) {
            let after = passed(all, round, i, now);
            assert forall|j: int| i + 1 <= j < round.handles.len() implies session(
                after,
                #[trigger] turn(round.handles, round.offset, j),
            ) == session(start, turn(round.handles, round.offset, j)) by {
                lemma_turns_differ(round.handles, round.offset, i, j);
            }
            assert(time_of(start, round, i + 1) == time_after(all, round, i, now));
            lemma_first_ready_at_start(start, after, round, i + 1);
        }
    }
}

/// Two turns of a round are those of two handles, where the handles are distinct.
proof fn lemma_turns_differ(handles: Seq<i32>, offset: int, i: int, j: int)
    requires
        handles.no_duplicates(),
        0 <= i < j < handles.len(),
    ensures
        turn(handles, offset, i) != turn(handles, offset, j),
{
    let n = handles.len() as int;
    vstd::arithmetic::div_mod::lemma_mod_equivalence(offset + j, offset + i, n);
    vstd::arithmetic::div_mod::lemma_small_mod((j - i) as nat, n as nat);
    assert((offset + j) - (offset + i) == j - i);
    vstd::arithmetic::div_mod::lemma_mod_bound(offset + i, n);
    vstd::arithmetic::div_mod::lemma_mod_bound(offset + j, n);
}

/// A message that is sent arrives as it is: a server that reads the bytes gets the opcode and the
/// payload, and stops at their end.
pub proof fn sent_messages_arrive<S>(
    all: Seq<Option<ConnView<S>>>,
    handle: i32,
    opcode: u8,
    payload: Seq<u8>,
    seed: u64,
    now: u64,
    rest: Seq<u8>,
    limit: int,
)
    requires
        opcode < 16,
        payload.len() <= limit <= u64::MAX,
    ensures
        sending(all, handle, opcode, payload, seed, now) matches SendView::Write(bytes)
            ==> frame::decode(bytes + rest, limit) == (frame::Decoding::Whole {
            opcode,
            payload,
            consumed: bytes.len() as int,
        }),
{
    frame::masked_frames_round_trip(opcode, payload, handshake::generated(seed, 4), rest, limit);
}

/// A text arrives as the text that it is, in both directions: the server that reads what a client
/// sends has it as its message, and so has the client that reads what a server sends.
pub proof fn texts_arrive_as_they_are(
    msg: Seq<char>,
    mask: Seq<u8>,
    rest: Seq<u8>,
    limit: int,
)
    requires
        mask.len() == 4,
        utf8::encode_utf8(msg).len() <= limit <= u64::MAX,
    ensures
        ({
            let bytes = utf8::encode_utf8(msg);
            &&& frame::decode(
                frame::masked_frame(OP_TEXT, bytes, mask) + rest,
                limit,
            ) matches frame::Decoding::Whole { opcode, payload, .. } && opcode == OP_TEXT
                && text::utf8_lossy(payload) == msg
            &&& frame::decode(
                frame::plain_frame(OP_TEXT, bytes) + rest,
                limit,
            ) matches frame::Decoding::Whole { opcode, payload, .. } && opcode == OP_TEXT
                && delivery(opcode, payload) == bytes
        }),
{
    let bytes = utf8::encode_utf8(msg);
    frame::masked_frames_round_trip(OP_TEXT, bytes, mask, rest, limit);
    frame::plain_frames_round_trip(OP_TEXT, bytes, rest, limit);
    text::lemma_lossless(msg);
}

/// The waits of the schedule, step by step, in milliseconds; the last one is repeated.
pub proof fn waits_are_scheduled(step: nat)
    ensures
        ({
            let waits = seq![100nat, 250, 500, 1_000, 2_500, 5_000, 10_000];
            backoff_ms(step) == waits[if step < 6 {
                step as int
            } else {
                6
            }]
        }),
        step < 6 ==> next_step(step) == step + 1,
        step >= 6 ==> next_step(step) == 6,
{
}

/// A session that is connected can be used; one that is not is due for an attempt exactly when the
/// wait of its step has passed since the last one.
pub proof fn attempts_wait_for_their_time<S>(c: ConnView<S>, now: u64)
    ensures
        link(c, now) == Link::Up <==> c.stream is Some,
        link(c, now) == Link::Retry <==> c.stream is None && c.last_attempt + backoff_ms(c.step)
            * 1_000_000 <= now,
{
}

/// What an attempt or a loss does to a session: the connection and the schedule change, and nothing
/// else. A success starts the schedule over, a failure and a loss go one step further.
pub proof fn connections_come_and_go<S>(c: ConnView<S>, s: S, now: u64)
    ensures
        attempted(c, Some(s), now) == (ConnView {
            url: c.url,
            stream: Some(s),
            inbox: c.inbox,
            last_attempt: now,
            step: 0,
        }),
        attempted(c, None, now) == (ConnView {
            url: c.url,
            stream: c.stream,
            inbox: c.inbox,
            last_attempt: now,
            step: next_step(c.step),
        }),
        disconnected(c, now) == (ConnView::<S> {
            url: c.url,
            stream: None,
            inbox: c.inbox,
            last_attempt: now,
            step: next_step(c.step),
        }),
{
}

/// Sessions keep to themselves: an attempt for one, or what is read for it, leaves every other as it
/// is. An attempt counts only where the session is not connected, and only a close that is read
/// loses the connection.
pub proof fn other_sessions_are_left_alone<S>(
    all: Seq<Option<ConnView<S>>>,
    handle: i32,
    opened: Option<S>,
    opcode: Option<u8>,
    now: u64,
    i: int,
)
    requires
        0 <= i < all.len(),
    ensures
        after_attempt(all, handle, opened, now).len() == all.len(),
        after_read(all, handle, opcode, now).len() == all.len(),
        after_attempt(all, handle, opened, now)[i] == (match all[i] {
            Some(c) if i == handle && c.stream is None => Some(attempted(c, opened, now)),
            _ => all[i],
        }),
        after_read(all, handle, opcode, now)[i] == (match all[i] {
            Some(c) if i == handle && opcode == Some(8u8) => Some(disconnected(c, now)),
            _ => all[i],
        }),
{
}

/// A handle is the place of its session, and there is none at any other.
pub proof fn handles_are_places<S>(all: Seq<Option<ConnView<S>>>, handle: i32)
    ensures
        0 <= handle < all.len() ==> session(all, handle) == all[handle as int],
        handle < 0 || handle >= all.len() ==> session(all, handle) is None,
{
}

/// A message is sent over every session that is connected, however long it is: what is written is
/// one frame, and a server that reads it gets the opcode and every byte. One that is due is connected
/// first, and no other sends anything.
pub proof fn connected_sessions_send<S>(
    all: Seq<Option<ConnView<S>>>,
    handle: i32,
    opcode: u8,
    payload: Seq<u8>,
    seed: u64,
    now: u64,
)
    requires
        opcode < 16,
        payload.len() <= u64::MAX,
    ensures
        ({
            let step = sending(all, handle, opcode, payload, seed, now);
            match session(all, handle) {
                Some(c) => {
                    &&& c.stream is Some ==> (step matches SendView::Write(bytes) && frame::decode(
                        bytes,
                        u64::MAX as int,
                    ) == (frame::Decoding::Whole {
                        opcode,
                        payload,
                        consumed: bytes.len() as int,
                    }))
                    &&& c.stream is None ==> step == (if link(c, now) == Link::Retry {
                        SendView::Retry
                    } else {
                        SendView::Refused
                    })
                },
                None => step == SendView::Refused,
            }
        }),
{
    let mask = handshake::generated(seed, 4);
    let rest = Seq::<u8>::empty();
    frame::masked_frames_round_trip(opcode, payload, mask, rest, u64::MAX as int);
    let bytes = frame::masked_frame(opcode, payload, mask);
    assert(bytes + rest =~= bytes);
}

/// What is waiting for a session comes first, also where it is not connected; a session that is
/// connected is read from, and one that is due is connected first.
pub proof fn waiting_messages_come_first<S>(c: ConnView<S>, now: u64)
    ensures
        c.inbox.len() > 0 ==> receiving(Some(c), now) == RecvStep::Delivered,
        c.inbox.len() == 0 && c.stream is Some ==> receiving(Some(c), now) == RecvStep::Read,
        c.inbox.len() == 0 && c.stream is None ==> receiving(Some(c), now) == (if link(c, now)
            == Link::Retry {
            RecvStep::Retry
        } else {
            RecvStep::Refused
        }),
        receiving(None::<ConnView<S>>, now) == RecvStep::Refused,
{
}

/// A message that was waiting is delivered whole, and those behind it keep waiting in order; where
/// nothing is delivered, nothing changes.
pub proof fn waiting_messages_are_delivered_whole<S>(
    before: Seq<Option<ConnView<S>>>,
    latch: LatchView,
    handle: i32,
    step: RecvStep,
    after: Seq<Option<ConnView<S>>>,
    latched: LatchView,
    c: ConnView<S>,
    i: int,
)
    requires
        receive_effect(before, latch, handle, step, after, latched),
        step == RecvStep::Delivered ==> session(before, handle) == Some(c) && c.inbox.len() > 0,
        0 <= i < before.len(),
    ensures
        after.len() == before.len(),
        step == RecvStep::Delivered ==> latched.msg == c.inbox[0],
        step == RecvStep::Delivered && i == handle ==> after[i] == Some(
            ConnView {
                url: c.url,
                stream: c.stream,
                inbox: c.inbox.skip(1),
                last_attempt: c.last_attempt,
                step: c.step,
            },
        ),
        step != RecvStep::Delivered ==> latched == latch,
        step != RecvStep::Delivered || i != handle ==> after[i] == before[i],
{
}

/// What a frame delivers: a binary one every byte that it holds, whatever they are, and one of text
/// the text, as long as it is. No other frame is a message.
pub proof fn frames_deliver_every_byte(payload: Seq<u8>, msg: Seq<char>, opcode: u8)
    ensures
        delivery(OP_BINARY, payload) == payload,
        delivery(OP_TEXT, utf8::encode_utf8(msg)) == utf8::encode_utf8(msg),
        delivery(OP_TEXT, payload) == utf8::encode_utf8(text::utf8_lossy(payload)),
        is_message(opcode) <==> opcode == 1 || opcode == 2,
{
    text::lemma_lossless(msg);
}

/// The turns of a round go through the group from the offset on, and from its end back to its
/// beginning: every handle has its turn.
pub proof fn every_handle_has_its_turn(handles: Seq<i32>, offset: int, i: int, p: int)
    requires
        0 <= offset < handles.len(),
        0 <= i < handles.len(),
        0 <= p < handles.len(),
    ensures
        turn(handles, offset, i) == (if offset + i < handles.len() {
            handles[offset + i]
        } else {
            handles[offset + i - handles.len()]
        }),
        exists|k: int|
            0 <= k < handles.len() && #[trigger] turn(handles, offset, k) == handles[p],
{
    let n = handles.len() as int;
    if offset + i < n {
        vstd::arithmetic::div_mod::lemma_small_mod((offset + i) as nat, n as nat);
    } else {
        vstd::arithmetic::div_mod::lemma_mod_sub_multiples_vanish(offset + i, n);
        vstd::arithmetic::div_mod::lemma_small_mod((offset + i - n) as nat, n as nat);
    }
    let k = rounds_visit_every_place(n, offset, p);
    assert(turn(handles, offset, k) == handles[p]);
}

/// A handle of a group has a first place, where no other one of it comes before.
pub proof fn handles_of_a_group_have_a_first_place(handles: Seq<i32>, h: i32, p: int)
    ensures
        first_place(handles, h, p) <==> 0 <= p < handles.len() && handles[p] == h && forall|j: int|
            0 <= j < p ==> handles[j] != h,
        handles.contains(h) ==> exists|q: int| first_place(handles, h, q),
{
    if handles.contains(h) {
        let q = choose|q: int| 0 <= q < handles.len() && handles[q] == h;
        lemma_first_place(handles, h, q);
    }
}

proof fn lemma_first_place(handles: Seq<i32>, h: i32, p: int)
    requires
        0 <= p < handles.len(),
        handles[p] == h,
    ensures
        exists|q: int| first_place(handles, h, q),
    decreases p,
{
    if exists|j: int| 0 <= j < p && handles[j] == h {
        let j = choose|j: int| 0 <= j < p && handles[j] == h;
        lemma_first_place(handles, h, j);
    } else {
        assert(first_place(handles, h, p));
    }
}

/// What is to be sent, what was read and what is replied is seen as what it holds, every byte of it.
pub proof fn bytes_are_seen_as_they_are(b: Vec<u8>, opcode: u8)
    ensures
        SendStep::Write(b)@ == SendView::Write(b@),
        SendStep::Retry@ == SendView::Retry,
        SendStep::Refused@ == SendView::Refused,
        opcode_of(Some((opcode, b))) == Some(opcode),
        opcode_of(None) is None,
        reply_bytes(Some(b)) == Some(b@),
        reply_bytes(None) is None,
{
}

} // verus!
