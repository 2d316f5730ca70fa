//! SSH sessions, with numbers in the place of connections and tasks.
use loft_net::session::{
    close, connect, deliver, finished, is_open, obey, open_shell, recv, resize, send, Cmd, Message,
    Registry, TaskStep,
};

type Numbers = Registry<u32, char>;

#[test]
fn handles_are_given_out_in_order() {
    let mut r: Numbers = Registry::new();
    assert_eq!(connect(&mut r, None), -1);
    assert_eq!(connect(&mut r, Some(10)), 0);
    assert_eq!(connect(&mut r, Some(11)), 1);
    assert_eq!(r.handle_of(1), Some(&11));
    assert_eq!(r.handle_of(2), None);
    let c = close(&mut r, 0).unwrap();
    assert_eq!((c.handle, c.tx), (10, None));
    assert!(close(&mut r, 0).is_none());
    assert_eq!(connect(&mut r, Some(12)), 2);
}

#[test]
fn without_a_shell_nothing_happens() {
    let mut r: Numbers = Registry::new();
    let id = connect(&mut r, Some(1));
    assert!(send(&r, id, b"x").is_none());
    assert!(resize(&r, id, 80, 24).is_none());
    assert!(!is_open(&r, id));
    assert_eq!(recv(&mut r, id), []);
    assert_eq!(recv(&mut r, 77), []);
    assert_eq!(open_shell(&mut r, id, None), None);
    assert_eq!(open_shell(&mut r, 77, Some('x')), None);
    assert!(!is_open(&r, id));
}

#[test]
fn commands_go_to_the_task() {
    let mut r: Numbers = Registry::new();
    let id = connect(&mut r, Some(1));
    assert_eq!(open_shell(&mut r, id, Some('t')), Some(0));
    assert!(is_open(&r, id));
    let (tx, cmd) = send(&r, id, b"ls\n").unwrap();
    assert_eq!((*tx, cmd.clone()), ('t', Cmd::Data(b"ls\n".to_vec())));
    assert_eq!(obey(Some(cmd)), TaskStep::Write(b"ls\n".to_vec()));
    let (tx, cmd) = resize(&r, id, 80, 24).unwrap();
    assert_eq!((*tx, cmd.clone()), ('t', Cmd::Resize(80, 24)));
    assert_eq!(obey(Some(cmd)), TaskStep::Resize(80, 24));
    assert_eq!(obey(Some(Cmd::Close)), TaskStep::Finish);
    assert_eq!(obey(None), TaskStep::Finish);
    let c = close(&mut r, id).unwrap();
    assert_eq!((c.handle, c.tx), (1, Some('t')));
}

#[test]
fn inbound_is_ordered_and_lossless() {
    let mut r: Numbers = Registry::new();
    let id = connect(&mut r, Some(1));
    let serial = open_shell(&mut r, id, Some('t')).unwrap();
    const N: usize = 100_000;
    let mut drained: Vec<u8> = Vec::new();
    for i in 0..N {
        let byte = vec![(i % 256) as u8];
        let message = if i % 3 == 0 { Message::ExtendedData(byte) } else { Message::Data(byte) };
        assert!(deliver(&mut r, id, serial, message));
        if i % 1000 == 7 {
            drained.extend_from_slice(&recv(&mut r, id));
        }
    }
    drained.extend_from_slice(&recv(&mut r, id));
    assert_eq!(drained.len(), N);
    for (i, b) in drained.iter().enumerate() {
        assert_eq!(*b, (i % 256) as u8, "byte {} out of order", i);
    }
    assert_eq!(recv(&mut r, id), []);
}

#[test]
fn a_shell_ends_and_keeps_what_arrived() {
    for last in [Message::Eof, Message::Close, Message::Gone] {
        let mut r: Numbers = Registry::new();
        let id = connect(&mut r, Some(1));
        let serial = open_shell(&mut r, id, Some('t')).unwrap();
        assert!(deliver(&mut r, id, serial, Message::Data(b"bye".to_vec())));
        assert!(deliver(&mut r, id, serial, Message::Other));
        assert!(is_open(&r, id));
        assert!(!deliver(&mut r, id, serial, last));
        assert!(!is_open(&r, id));
        assert_eq!(recv(&mut r, id), b"bye");
    }
    let mut r: Numbers = Registry::new();
    let id = connect(&mut r, Some(1));
    let serial = open_shell(&mut r, id, Some('t')).unwrap();
    deliver(&mut r, id, serial, Message::Data(b"left".to_vec()));
    finished(&mut r, id, serial);
    assert!(!is_open(&r, id));
    assert_eq!(recv(&mut r, id), b"left");
}

#[test]
fn a_new_shell_hears_nothing_of_the_old_one() {
    let mut r: Numbers = Registry::new();
    let id = connect(&mut r, Some(1));
    let old = open_shell(&mut r, id, Some('a')).unwrap();
    deliver(&mut r, id, old, Message::Data(b"old".to_vec()));
    let new = open_shell(&mut r, id, Some('b')).unwrap();
    assert_ne!(old, new);
    assert!(deliver(&mut r, id, old, Message::Data(b"late".to_vec())));
    assert!(!deliver(&mut r, id, old, Message::Eof));
    finished(&mut r, id, old);
    assert!(is_open(&r, id));
    deliver(&mut r, id, new, Message::Data(b"new".to_vec()));
    assert_eq!(recv(&mut r, id), b"new");
    assert!(!deliver(&mut r, 99, new, Message::Gone));
}

#[test]
fn a_shell_is_open_from_its_opening_to_its_end() {
    let mut r: Numbers = Registry::new();
    assert!(!is_open(&r, 0));
    let id = connect(&mut r, Some(1));
    assert!(!is_open(&r, id));
    let first = open_shell(&mut r, id, Some('a')).unwrap();
    assert!(is_open(&r, id));
    assert!(!deliver(&mut r, id, first, Message::Eof));
    assert!(!is_open(&r, id));
    let second = open_shell(&mut r, id, Some('b')).unwrap();
    assert!(is_open(&r, id));
    finished(&mut r, id, first);
    recv(&mut r, id);
    assert!(is_open(&r, id));
    finished(&mut r, id, second);
    assert!(!is_open(&r, id));
    open_shell(&mut r, id, Some('c')).unwrap();
    close(&mut r, id);
    assert!(!is_open(&r, id));
    assert_eq!(open_shell(&mut r, id, Some('d')), None);
    assert!(!is_open(&r, id));
}

#[test]
fn outbound_is_ordered_and_lossless() {
    let mut r: Numbers = Registry::new();
    let id = connect(&mut r, Some(1));
    open_shell(&mut r, id, Some('t')).unwrap();
    let mut queue = std::collections::VecDeque::new();
    let mut done = Vec::new();
    let mut wanted = Vec::new();
    for i in 0..300u32 {
        if i % 5 == 0 {
            queue.push_back(resize(&r, id, i, 24).unwrap().1);
            wanted.push(TaskStep::Resize(i, 24));
        } else {
            let bytes = [i as u8, 0, 255];
            queue.push_back(send(&r, id, &bytes).unwrap().1);
            wanted.push(TaskStep::Write(bytes.to_vec()));
        }
        if i % 3 == 0 {
            done.push(obey(queue.pop_front()));
        }
    }
    while let Some(cmd) = queue.pop_front() {
        done.push(obey(Some(cmd)));
    }
    assert_eq!(done, wanted);
}
