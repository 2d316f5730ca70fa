//! WebSocket sessions of a client, with numbers in the place of connections.
use loft_net::frame::{decode_frame, Decoded, OP_BINARY, OP_CLOSE, OP_PING, OP_PONG, OP_TEXT};
use loft_net::ws_client::{
    backoff_delay, close, connect, last_message, last_opcode, n_ws_group_add, n_ws_group_clear,
    n_ws_group_poll, poll_group, received, recv, retried, retry_url, send, send_binary, sent,
    turn_after, Latch, PollStep, RecvStep, SendStep, Sessions, WsGroup,
};

const MS: u64 = 1_000_000;
const URL: &str = "ws://localhost:8080/game";

fn bytes(step: SendStep) -> Vec<u8> {
    match step {
        SendStep::Write(b) => b,
        SendStep::Refused => panic!("refused"),
        SendStep::Retry => panic!("a retry is due"),
    }
}

fn payload(wire: &[u8]) -> (u8, Vec<u8>) {
    match decode_frame(wire, 1 << 20) {
        Decoded::Whole { opcode, payload, consumed } => {
            assert_eq!(consumed, wire.len());
            (opcode, payload)
        }
        _ => panic!("no frame"),
    }
}

#[test]
fn malformed_addresses_have_no_session() {
    let mut s: Sessions<u32> = Sessions::new();
    assert_eq!(connect(&mut s, "http://x", Some(1), 0), -1);
    assert_eq!(connect(&mut s, URL, None, 0), 0);
    assert_eq!(connect(&mut s, URL, Some(2), 0), 1);
    assert_eq!(retry_url(&s, 0).unwrap(), URL);
    assert!(retry_url(&s, 2).is_none());
    assert!(retry_url(&s, -1).is_none());
}

#[test]
fn the_schedule_ends_at_ten_seconds() {
    let waits: Vec<u64> = (0..9).map(backoff_delay).collect();
    assert_eq!(waits, [100, 250, 500, 1000, 2500, 5000, 10000, 10000, 10000]);
    assert_eq!(backoff_delay(u64::MAX), 10000);
}

#[test]
fn messages_are_masked_frames() {
    let mut s = Sessions::new();
    let h = connect(&mut s, URL, Some(1u32), 0);
    assert_eq!(
        bytes(send(&s, h, "Hello", 7, 0)),
        [129, 133, 94, 63, 49, 145, 22, 90, 93, 253, 49]
    );
    assert_eq!(payload(&bytes(send(&s, h, "é", 3, 0))), (OP_TEXT, "é".as_bytes().to_vec()));
    assert_eq!(
        payload(&bytes(send_binary(&s, h, &[0, 255, 1], 3, 0))),
        (OP_BINARY, vec![0, 255, 1])
    );
    assert!(matches!(send(&s, 5, "x", 0, 0), SendStep::Refused));
    assert!(matches!(send(&s, -1, "x", 0, 0), SendStep::Refused));
}

#[test]
fn a_lost_connection_is_opened_again_ever_more_slowly() {
    let mut s = Sessions::new();
    let h = connect(&mut s, URL, None, 0);
    // The first attempt failed: the next is due after the first wait.
    assert!(matches!(send(&s, h, "x", 0, 100 * MS - 1), SendStep::Refused));
    assert!(matches!(send(&s, h, "x", 0, 100 * MS), SendStep::Retry));
    let mut now = 100 * MS;
    for wait in [250, 500, 1000, 2500, 5000, 10000, 10000, 10000] {
        assert!(!retried(&mut s, h, None, now));
        assert!(matches!(send(&s, h, "x", 0, now + wait * MS - 1), SendStep::Refused));
        assert!(matches!(send(&s, h, "x", 0, now + wait * MS), SendStep::Retry));
        now += wait * MS;
    }
    // A success starts the schedule over.
    assert!(retried(&mut s, h, Some(9u32), now));
    assert_eq!(s.stream_mut(h).copied(), Some(9));
    assert!(matches!(send(&s, h, "x", 0, now), SendStep::Write(_)));
    assert!(!sent(&mut s, h, false, now));
    assert!(s.stream_mut(h).is_none());
    assert!(matches!(send(&s, h, "x", 0, now + 250 * MS - 1), SendStep::Refused));
    assert!(matches!(send(&s, h, "x", 0, now + 250 * MS), SendStep::Retry));
    // A clock that goes back does not make it sooner.
    assert!(matches!(send(&s, h, "x", 0, 0), SendStep::Refused));
}

#[test]
fn an_attempt_changes_no_live_connection() {
    let mut s = Sessions::new();
    let h = connect(&mut s, URL, Some(1u32), 0);
    assert!(retried(&mut s, h, Some(2), 5));
    assert_eq!(s.stream_mut(h).copied(), Some(1));
    assert!(!retried(&mut s, 7, Some(2), 5));
    assert!(sent(&mut s, h, true, 5));
    assert_eq!(s.stream_mut(h).copied(), Some(1));
}

#[test]
fn frames_are_taken_in() {
    let mut s = Sessions::new();
    let mut l = Latch::new();
    let h = connect(&mut s, URL, Some(1u32), 0);
    assert_eq!(last_opcode(&l), 0);
    assert_eq!(recv(&mut s, &mut l, h, 0), RecvStep::Read);
    assert_eq!(recv(&mut s, &mut l, 4, 0), RecvStep::Refused);

    let r = received(&mut s, &mut l, h, Some((OP_TEXT, b"hi".to_vec())), 0, 0);
    assert!(r.delivered && r.reply.is_none());
    assert_eq!((last_opcode(&l), last_message(&l)), (OP_TEXT, b"hi".to_vec()));
    // Text is decoded lossily, binary is left alone.
    received(&mut s, &mut l, h, Some((OP_TEXT, vec![b'a', 255])), 0, 0);
    assert_eq!(last_message(&l), "a\u{fffd}".as_bytes());
    received(&mut s, &mut l, h, Some((OP_BINARY, vec![b'a', 255, 0])), 0, 0);
    assert_eq!((last_opcode(&l), last_message(&l)), (OP_BINARY, vec![b'a', 255, 0]));

    let r = received(&mut s, &mut l, h, Some((OP_PING, b"hi".to_vec())), 7, 0);
    assert!(!r.delivered);
    assert_eq!(r.reply.unwrap(), [138, 130, 94, 63, 49, 145, 54, 86]);
    let r = received(&mut s, &mut l, h, Some((OP_PONG, vec![])), 7, 0);
    assert!(!r.delivered && r.reply.is_none());
    let r = received(&mut s, &mut l, h, None, 7, 0);
    assert!(!r.delivered && r.reply.is_none());
    assert_eq!(last_message(&l), vec![b'a', 255, 0]);
    assert_eq!(recv(&mut s, &mut l, h, 0), RecvStep::Read);

    let r = received(&mut s, &mut l, h, Some((OP_CLOSE, vec![])), 7, 1000 * MS);
    assert!(!r.delivered && r.reply.is_none());
    assert_eq!(recv(&mut s, &mut l, h, 1000 * MS), RecvStep::Refused);
    assert_eq!(recv(&mut s, &mut l, h, 1250 * MS), RecvStep::Retry);
}

#[test]
fn closing_ends_a_session_for_good() {
    let mut s = Sessions::new();
    let mut l = Latch::new();
    let a = connect(&mut s, URL, Some(1u32), 0);
    let b = connect(&mut s, URL, None, 0);
    let (stream, frame) = close(&mut s, a, 7).unwrap();
    assert_eq!(stream, 1);
    assert_eq!(frame, [136, 128, 94, 63, 49, 145]);
    assert!(close(&mut s, a, 7).is_none());
    assert!(close(&mut s, b, 7).is_none());
    assert!(close(&mut s, 9, 7).is_none());
    assert_eq!(recv(&mut s, &mut l, a, 10_000 * MS), RecvStep::Refused);
    assert_eq!(recv(&mut s, &mut l, b, 10_000 * MS), RecvStep::Refused);
    // A handle is never given out twice.
    assert_eq!(connect(&mut s, URL, Some(3), 0), 2);
}

#[test]
fn a_round_asks_the_sessions_in_turn() {
    let mut s = Sessions::new();
    let mut l = Latch::new();
    let a = connect(&mut s, URL, Some(1u32), 0);
    let b = connect(&mut s, URL, None, 0);
    let c = connect(&mut s, URL, Some(3), 0);
    let handles = [a, 99, b, c];
    assert_eq!(poll_group(&mut s, &mut l, &handles, 0, 0, 0), PollStep::Read(0));
    // The closed one and the one that waits are passed over.
    assert_eq!(poll_group(&mut s, &mut l, &handles, 0, 1, 0), PollStep::Read(3));
    assert_eq!(poll_group(&mut s, &mut l, &handles, 0, 4, 0), PollStep::Nothing);
    // An attempt that is due comes in its turn.
    assert_eq!(poll_group(&mut s, &mut l, &handles, 0, 1, 100 * MS), PollStep::Retry(2));
    // A round that starts elsewhere comes round.
    assert_eq!(poll_group(&mut s, &mut l, &handles, 3, 0, 0), PollStep::Read(0));
    assert_eq!(poll_group(&mut s, &mut l, &handles, 3, 1, 0), PollStep::Read(1));
    assert_eq!(poll_group(&mut s, &mut l, &handles, 3, 2, 0), PollStep::Nothing);
    assert_eq!(poll_group(&mut s, &mut l, &[], 0, 0, 0), PollStep::Nothing);
}

#[test]
fn a_round_goes_on_at_the_same_turn_or_the_next() {
    assert_eq!(turn_after(PollStep::Retry(4), true), 4);
    assert_eq!(turn_after(PollStep::Retry(4), false), 5);
    assert_eq!(turn_after(PollStep::Read(4), true), 5);
    assert_eq!(turn_after(PollStep::Read(4), false), 5);
}

/// Makes a round at the time `now`, in which attempts open what `opens` says and reading gives what
/// `frames` says, by turn.
fn round(
    s: &mut Sessions<u32>,
    l: &mut Latch,
    handles: &[i32],
    now: u64,
    opens: &[Option<u32>],
    frames: &[Option<(u8, Vec<u8>)>],
) -> Option<i32> {
    let mut from = 0;
    loop {
        let step = poll_group(s, l, handles, 0, from, now);
        match step {
            PollStep::Nothing => return None,
            PollStep::Fired(h) => return Some(h),
            PollStep::Retry(at) => {
                from = turn_after(step, retried(s, handles[at], opens[at], now));
            }
            PollStep::Read(at) => {
                if received(s, l, handles[at], frames[at].clone(), 7, now).delivered {
                    return Some(handles[at]);
                }
                from = turn_after(step, false);
            }
        }
    }
}

#[test]
fn a_round_gives_the_first_message() {
    let mut s = Sessions::new();
    let mut l = Latch::new();
    let a = connect(&mut s, URL, Some(1u32), 0);
    let b = connect(&mut s, URL, None, 0);
    let c = connect(&mut s, URL, Some(3), 0);
    let handles = [a, b, c];
    let text = |t: &str| Some((OP_TEXT, t.as_bytes().to_vec()));
    // The first session has a ping; the second waits; the third has a message.
    let frames = [Some((OP_PING, vec![])), text("b"), text("c")];
    assert_eq!(round(&mut s, &mut l, &handles, 0, &[None, Some(2), None], &frames), Some(c));
    assert_eq!(last_message(&l), b"c");
    // The attempt for the second is due, and fails.
    let then = 100 * MS;
    assert_eq!(round(&mut s, &mut l, &handles, then, &[None; 3], &frames), Some(c));
    // It is due again, and its message comes in its turn.
    let then = 1_000_000 * MS;
    assert_eq!(round(&mut s, &mut l, &handles, then, &[None, Some(2), None], &frames), Some(b));
    assert_eq!(last_message(&l), b"b");
    // A close loses the connection, and no session has a message.
    let closed = [Some((OP_CLOSE, vec![])), None, Some((OP_PING, vec![]))];
    assert_eq!(round(&mut s, &mut l, &handles, then, &[None; 3], &closed), None);
    assert_eq!(round(&mut s, &mut l, &handles, then, &[None; 3], &frames), Some(b));
}

#[test]
fn groups_go_on_behind_the_one_that_fired() {
    let mut g = WsGroup::new();
    n_ws_group_add(&mut g, 4);
    n_ws_group_add(&mut g, 5);
    n_ws_group_add(&mut g, (1 << 32) + 6);
    assert_eq!(g.handles(), [4, 5, 6]);
    assert_eq!(n_ws_group_poll(&mut g, 4), 4);
    assert_eq!(g.offset(), 1);
    assert_eq!(n_ws_group_poll(&mut g, 6), 6);
    assert_eq!(g.offset(), 0);
    assert_eq!(n_ws_group_poll(&mut g, 5), 5);
    assert_eq!(n_ws_group_poll(&mut g, -1), -1);
    assert_eq!(n_ws_group_poll(&mut g, 77), 77);
    assert_eq!(g.offset(), 2);
    n_ws_group_clear(&mut g);
    assert_eq!((g.handles().len(), g.offset()), (0, 0));
}
