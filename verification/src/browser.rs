//! WebSocket sessions in a browser, where the host page owns the sockets: what its answers mean,
//! and the last message.
use crate::text;
use crate::text::{append_bytes, from_utf8_lossy};
use vstd::prelude::*;

verus! {

/// Whether the host sent a message, by its answer.
pub fn ws_client_send(answer: i32) -> (r: bool)
    ensures
        r == (answer == 1),
{
    answer == 1
}

/// The last message that the host handed over, and its opcode.
pub struct Bridge {
    msg: Vec<u8>,
    op: i32,
}

/// The last message, over sequences.
pub struct BridgeView {
    pub msg: Seq<u8>,
    pub op: i32,
}

impl View for Bridge {
    type V = BridgeView;

    closed spec fn view(&self) -> BridgeView {
        BridgeView { msg: self.msg@, op: self.op }
    }
}

impl Bridge {
    /// No message yet.
    pub fn new() -> (r: Self)
        ensures
            r@ == (BridgeView { msg: Seq::empty(), op: 0 }),
    {
        Bridge { msg: Vec::new(), op: 0 }
    }
}

/// How many bytes the message of the host takes, by its answer.
pub fn message_size(answer: i32) -> (r: usize)
    ensures
        r == (if answer > 0 {
            answer as int
        } else {
            0
        }),
{
    if answer > 0 {
        answer as usize
    } else {
        0
    }
}

/// Keeps the message that the host has, by its answer, with its opcode. Returns whether there is
/// one.
pub fn ws_client_recv(bridge: &mut Bridge, answer: i32, msg: Vec<u8>, op: i32) -> (r: bool)
    ensures
        r == (answer == 1),
        final(bridge)@ == (if answer == 1 {
            BridgeView { msg: msg@, op }
        } else {
            old(bridge)@
        }),
{
    if answer != 1 {
        return false;
    }
    bridge.msg = msg;
    bridge.op = op;
    true
}

/// The bytes of the last message, whatever they are.
pub fn ws_client_message(bridge: &Bridge) -> (r: Vec<u8>)
    ensures
        r@ == bridge@.msg,
{
    let mut r: Vec<u8> = Vec::new();
    append_bytes(&mut r, bridge.msg.as_slice());
    assert(r@ =~= bridge.msg@);
    r
}

/// The opcode of the last message: 1 for text, 2 for binary.
pub fn ws_client_opcode(bridge: &Bridge) -> (r: i32)
    ensures
        r == bridge@.op,
{
    bridge.op
}

/// The last message that a host without opcodes handed over: always a text.
pub struct TextLatch {
    msg: String,
}

impl View for TextLatch {
    type V = Seq<char>;

    closed spec fn view(&self) -> Seq<char> {
        self.msg@
    }
}

impl TextLatch {
    /// No message yet.
    pub fn new() -> (r: Self)
        ensures
            r@ == Seq::<char>::empty(),
    {
        let r = TextLatch { msg: String::new() };
        assert(r@ =~= Seq::<char>::empty());
        r
    }
}

/// How much room a host without opcodes is given for a message.
pub const ROOM: usize = 65536;

/// Keeps the message that a host without opcodes put at the front of the room that it was given, by
/// its answer: how many bytes it took, or nothing where that is not above 0. Returns whether there
/// is one.
pub fn recv(latch: &mut TextLatch, answer: i32, room: &[u8]) -> (r: bool)
    ensures
        r == (answer > 0),
        final(latch)@ == (if answer > 0 {
            text::utf8_lossy(
                room@.take(
                    if answer < room@.len() {
                        answer as int
                    } else {
                        room@.len() as int
                    },
                ),
            )
        } else {
            old(latch)@
        }),
{
    if answer <= 0 {
        return false;
    }
    let n: usize = if (answer as usize) < room.len() {
        answer as usize
    } else {
        room.len()
    };
    let msg = vstd::slice::slice_subrange(room, 0, n);
    assert(msg@ =~= room@.take(n as int));
    latch.msg = from_utf8_lossy(msg);
    true
}

/// The last message of a host without opcodes.
pub fn last_message(latch: &TextLatch) -> (r: &str)
    ensures
        r@ == latch@,
{
    latch.msg.as_str()
}

/// The opcode of every message of a host without opcodes: that of a text.
pub fn last_opcode() -> (r: u8)
    ensures
        r == 1,
{
    1
}

} // verus!
