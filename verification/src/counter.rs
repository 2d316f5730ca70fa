//! The reference plugin: a counter that converges. Its state is a running total, its operations are
//! signed amounts that are added to it, and everything crosses the boundary as bytes: a number is
//! eight bytes, the lowest first.
use crate::text;
use crate::text::{append_bytes, decimal_string};
use vstd::prelude::*;
use vstd::utf8;

verus! {

// ---------------------------------------------------------------------------
// Numbers as bytes

/// The eight bytes of a number, the lowest first.
pub open spec fn le_bytes(v: u64) -> Seq<u8> {
    seq![
        v as u8,
        (v >> 8) as u8,
        (v >> 16) as u8,
        (v >> 24) as u8,
        (v >> 32) as u8,
        (v >> 40) as u8,
        (v >> 48) as u8,
        (v >> 56) as u8,
    ]
}

/// The number that eight bytes make, the lowest first.
pub open spec fn le_value(b: Seq<u8>) -> u64 {
    (b[0] as u64) | (b[1] as u64) << 8 | (b[2] as u64) << 16 | (b[3] as u64) << 24 | (b[4] as u64)
        << 32 | (b[5] as u64) << 40 | (b[6] as u64) << 48 | (b[7] as u64) << 56
}

/// The signed number in a buffer: that of its first eight bytes, 0 where it has fewer.
pub open spec fn number(b: Seq<u8>) -> i64 {
    if b.len() < 8 {
        0
    } else {
        le_value(b) as i64
    }
}

/// The bytes of a signed number.
pub open spec fn buffer(v: i64) -> Seq<u8> {
    le_bytes(v as u64)
}

/// Reads the number in a buffer.
pub fn le_to_i64(b: &[u8]) -> (r: i64)
    ensures
        r == number(b@),
{
    if b.len() < 8 {
        return 0;
    }
    let v: u64 = (b[0] as u64) | (b[1] as u64) << 8 | (b[2] as u64) << 16 | (b[3] as u64) << 24 | (
    b[4] as u64) << 32 | (b[5] as u64) << 40 | (b[6] as u64) << 48 | (b[7] as u64) << 56;
    #[verifier::truncate] (v as i64)
}

/// Writes a number as a buffer.
pub fn i64_to_le(v: i64) -> (r: Vec<u8>)
    ensures
        r@ == buffer(v),
{
    let u: u64 = #[verifier::truncate] (v as u64);
    let mut r: Vec<u8> = Vec::new();
    r.push(#[verifier::truncate] (u as u8));
    r.push(#[verifier::truncate] ((u >> 8) as u8));
    r.push(#[verifier::truncate] ((u >> 16) as u8));
    r.push(#[verifier::truncate] ((u >> 24) as u8));
    r.push(#[verifier::truncate] ((u >> 32) as u8));
    r.push(#[verifier::truncate] ((u >> 40) as u8));
    r.push(#[verifier::truncate] ((u >> 48) as u8));
    r.push(#[verifier::truncate] ((u >> 56) as u8));
    assert(r@ =~= buffer(v));
    r
}

// ---------------------------------------------------------------------------
// The functions of the plugin

/// The state of an empty document: a total of 0.
pub fn initial_state() -> (r: Vec<u8>)
    ensures
        r@ == buffer(0),
{
    i64_to_le(0)
}

/// The state after an operation.
pub open spec fn applied(state: Seq<u8>, op: Seq<u8>) -> Seq<u8> {
    buffer(number(state).wrapping_add(number(op)))
}

/// Adds the amount of an operation to the total, round the end of the range where it has to be.
pub fn apply_op(state: &[u8], op: &[u8]) -> (r: Vec<u8>)
    ensures
        r@ == applied(state@, op@),
{
    i64_to_le(le_to_i64(state).wrapping_add(le_to_i64(op)))
}

/// The operation for an action: its amount, or nothing where the amount is 0.
pub fn make_op(_state: &[u8], action: &[u8]) -> (r: Vec<u8>)
    ensures
        r@ == (if number(action@) == 0 {
            Seq::empty()
        } else {
            buffer(number(action@))
        }),
{
    let n: i64 = le_to_i64(action);
    if n == 0 {
        let r: Vec<u8> = Vec::new();
        assert(r@ =~= Seq::<u8>::empty());
        return r;
    }
    i64_to_le(n)
}

/// A signed number in decimal.
pub open spec fn signed_decimal(n: int) -> Seq<char> {
    if n < 0 {
        "-"@ + text::decimal((-n) as nat)
    } else {
        text::decimal(n as nat)
    }
}

/// The total in decimal, as the user sees it.
pub fn render(state: &[u8]) -> (r: Vec<u8>)
    ensures
        r@ == utf8::encode_utf8(signed_decimal(number(state@) as int)),
{
    let total: i64 = le_to_i64(state);
    let mut t = String::new();
    if total < 0 {
        t.append("-");
        let size: u64 = (-(total + 1)) as u64 + 1;
        t.append(decimal_string(size).as_str());
    } else {
        t.append(decimal_string(total as u64).as_str());
    }
    assert(t@ =~= signed_decimal(total as int));
    let mut r: Vec<u8> = Vec::new();
    append_bytes(&mut r, t.as_str().as_bytes());
    assert(r@ =~= utf8::encode_utf8(t@));
    r
}

/// The snapshot of a state: the state as it is.
pub fn snapshot(state: &[u8]) -> (r: Vec<u8>)
    ensures
        r@ == state@,
{
    let mut r: Vec<u8> = Vec::new();
    append_bytes(&mut r, state);
    assert(r@ =~= state@);
    r
}

/// The state in a snapshot: the snapshot as it is.
pub fn load_snapshot(bytes: &[u8]) -> (r: Vec<u8>)
    ensures
        r@ == bytes@,
{
    snapshot(bytes)
}

// ---------------------------------------------------------------------------
// Laws

/// A number comes back from its bytes.
pub proof fn numbers_round_trip(v: i64)
    ensures
        number(buffer(v)) == v,
{
    let u = v as u64;
    assert((u as u8) as u64 | ((u >> 8) as u8 as u64) << 8 | ((u >> 16) as u8 as u64) << 16 | ((u
        >> 24) as u8 as u64) << 24 | ((u >> 32) as u8 as u64) << 32 | ((u >> 40) as u8 as u64) << 40
        | ((u >> 48) as u8 as u64) << 48 | ((u >> 56) as u8 as u64) << 56 == u) by (bit_vector);
    assert((v as u64) as i64 == v) by (bit_vector);
}

/// The state after these operations, in this order.
pub open spec fn state_after(state: Seq<u8>, ops: Seq<Seq<u8>>) -> Seq<u8> {
    ops.fold_left(state, |s: Seq<u8>, op: Seq<u8>| applied(s, op))
}

/// Two operations may be applied in either order.
pub proof fn operations_commute(state: Seq<u8>, a: Seq<u8>, b: Seq<u8>)
    ensures
        applied(applied(state, a), b) == applied(applied(state, b), a),
{
    numbers_round_trip(number(state).wrapping_add(number(a)));
    numbers_round_trip(number(state).wrapping_add(number(b)));
}

/// Replicas converge: whatever the order in which the same operations are applied, the state is the
/// same.
pub proof fn any_order_converges(state: Seq<u8>, one: Seq<Seq<u8>>, other: Seq<Seq<u8>>)
    requires
        one.to_multiset() == other.to_multiset(),
    ensures
        state_after(state, one) == state_after(state, other),
{
    let f = |s: Seq<u8>, op: Seq<u8>| applied(s, op);
    assert forall|s: Seq<u8>, a: Seq<u8>, b: Seq<u8>| #[trigger] f(f(s, a), b) == f(f(s, b), a) by {
        operations_commute(s, a, b);
    }
    vstd::seq_lib::lemma_fold_left_permutation(one, other, f, state);
}

/// An operation that was made from an action adds the amount of the action, also where the amount
/// is 0 and the operation is empty.
pub proof fn made_operations_add_their_amount(state: Seq<u8>, action: Seq<u8>, op: Seq<u8>)
    requires
        op == if number(action) == 0 {
            Seq::<u8>::empty()
        } else {
            buffer(number(action))
        },
    ensures
        number(applied(state, op)) == number(state).wrapping_add(number(action)),
{
    numbers_round_trip(number(action));
    numbers_round_trip(number(state).wrapping_add(number(action)));
}

/// A number is written as its bytes, the lowest first, in two's complement: they are the digits of
/// the number, or of 2^64 more where it is below 0, to the base 256.
pub proof fn numbers_are_written_low_byte_first(v: i64)
    ensures
        ({
            let b = buffer(v);
            &&& b.len() == 8
            &&& b[0] + b[1] * 0x100 + b[2] * 0x1_0000 + b[3] * 0x100_0000 + b[4] * 0x1_0000_0000
                + b[5] * 0x100_0000_0000 + b[6] * 0x1_0000_0000_0000 + b[7] * 0x100_0000_0000_0000
                == if v < 0 {
                v + 0x1_0000_0000_0000_0000
            } else {
                v as int
            }
        }),
{
    let y = v as u64;
    assert(v as u64 == if v < 0 {
        v + 0x1_0000_0000_0000_0000
    } else {
        v as int
    }) by (bit_vector);
    assert((y as u8) + ((y >> 8) as u8) * 0x100 + ((y >> 16) as u8) * 0x1_0000 + ((y >> 24) as u8)
        * 0x100_0000 + ((y >> 32) as u8) * 0x1_0000_0000 + ((y >> 40) as u8) * 0x100_0000_0000 + ((y
        >> 48) as u8) * 0x1_0000_0000_0000 + ((y >> 56) as u8) * 0x100_0000_0000_0000
        == y) by (bit_vector);
}

/// A buffer is read as the number that its first eight bytes write, whatever stands behind them; a
/// shorter one is 0.
pub proof fn buffers_are_read_low_byte_first(b: Seq<u8>, rest: Seq<u8>)
    requires
        b.len() == 8,
    ensures
        ({
            let n = b[0] + b[1] * 0x100 + b[2] * 0x1_0000 + b[3] * 0x100_0000 + b[4] * 0x1_0000_0000
                + b[5] * 0x100_0000_0000 + b[6] * 0x1_0000_0000_0000 + b[7] * 0x100_0000_0000_0000;
            number(b + rest) == if n >= 0x8000_0000_0000_0000 {
                n - 0x1_0000_0000_0000_0000
            } else {
                n
            }
        }),
        rest.len() < 8 ==> number(rest) == 0,
{
    let all = b + rest;
    assert(all[0] == b[0] && all[1] == b[1] && all[2] == b[2] && all[3] == b[3] && all[4] == b[4]
        && all[5] == b[5] && all[6] == b[6] && all[7] == b[7]);
    let c = b[0] as u64;
    let d = b[1] as u64;
    let e = b[2] as u64;
    let f = b[3] as u64;
    let g = b[4] as u64;
    let h = b[5] as u64;
    let i = b[6] as u64;
    let j = b[7] as u64;
    assert((c | d << 8 | e << 16 | f << 24 | g << 32 | h << 40 | i << 48 | j << 56) == c + d * 0x100
        + e * 0x1_0000 + f * 0x100_0000 + g * 0x1_0000_0000 + h * 0x100_0000_0000 + i
        * 0x1_0000_0000_0000 + j * 0x100_0000_0000_0000) by (bit_vector)
        requires
            c < 256,
            d < 256,
            e < 256,
            f < 256,
            g < 256,
            h < 256,
            i < 256,
            j < 256,
    ;
    let v = le_value(all);
    assert(v as i64 == if v >= 0x8000_0000_0000_0000 {
        v - 0x1_0000_0000_0000_0000
    } else {
        v as int
    }) by (bit_vector);
}

/// An operation adds its amount to the total, and the sum wraps round at the ends of the range.
pub proof fn operations_add_up(state: Seq<u8>, op: Seq<u8>)
    ensures
        ({
            let sum = number(state) + number(op);
            applied(state, op) == buffer(
                if sum > i64::MAX {
                    (sum - 0x1_0000_0000_0000_0000) as i64
                } else if sum < i64::MIN {
                    (sum + 0x1_0000_0000_0000_0000) as i64
                } else {
                    sum as i64
                },
            )
        }),
{
}

/// A total is shown in decimal, with a minus sign in front where it is below 0.
pub proof fn totals_are_shown_with_their_sign(n: nat)
    ensures
        signed_decimal(n as int) == text::decimal(n),
        n > 0 ==> signed_decimal(-n) == seq!['-'] + text::decimal(n),
{
    reveal_strlit("-");
    assert("-"@ =~= seq!['-']);
}

} // verus!
