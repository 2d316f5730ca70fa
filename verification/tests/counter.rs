//! The counter of the reference plugin.
use loft_net::counter::{
    apply_op, i64_to_le, initial_state, le_to_i64, load_snapshot, make_op, render, snapshot,
};

#[test]
fn numbers_are_eight_bytes() {
    assert_eq!(i64_to_le(1), [1, 0, 0, 0, 0, 0, 0, 0]);
    assert_eq!(i64_to_le(-2), [254, 255, 255, 255, 255, 255, 255, 255]);
    for v in [0, 1, -1, 258, i64::MAX, i64::MIN] {
        assert_eq!(i64_to_le(v), v.to_le_bytes());
        assert_eq!(le_to_i64(&i64_to_le(v)), v);
    }
    assert_eq!(le_to_i64(&[1, 2, 3]), 0);
    assert_eq!(le_to_i64(&[1, 0, 0, 0, 0, 0, 0, 0, 9]), 1);
}

#[test]
fn the_scenario_counts_to_twelve() {
    let mut state = initial_state();
    assert_eq!(render(&state), b"0");
    for action in [5i64, 10, -3] {
        let op = make_op(&state, &i64_to_le(action));
        state = apply_op(&state, &op);
    }
    assert_eq!(render(&state), b"12");
    let restored = load_snapshot(&snapshot(&state));
    assert_eq!(restored, state);
}

#[test]
fn totals_are_shown_in_decimal() {
    assert_eq!(render(&i64_to_le(-7)), b"-7");
    assert_eq!(render(&i64_to_le(i64::MIN)), b"-9223372036854775808");
    assert_eq!(render(&i64_to_le(i64::MAX)), b"9223372036854775807");
    assert_eq!(render(b""), b"0");
}

#[test]
fn totals_go_round_the_end() {
    let state = apply_op(&i64_to_le(i64::MAX), &i64_to_le(1));
    assert_eq!(le_to_i64(&state), i64::MIN);
}

#[test]
fn an_action_of_zero_is_no_operation() {
    let state = i64_to_le(3);
    let op = make_op(&state, &i64_to_le(0));
    assert_eq!(op, []);
    assert_eq!(apply_op(&state, &op), state);
}

#[test]
fn any_order_comes_to_the_same() {
    let amounts = [i64::MAX, 17, -4, i64::MIN, 9];
    let mut forward = initial_state();
    for a in amounts {
        forward = apply_op(&forward, &i64_to_le(a));
    }
    let mut backward = initial_state();
    for a in amounts.iter().rev() {
        backward = apply_op(&backward, &i64_to_le(*a));
    }
    assert_eq!(forward, backward);
}
