//! The SHA-1 digest, as the WebSocket handshake uses it.
use vstd::prelude::*;

verus! {

/// `x` rotated left by `n` bits.
pub open spec fn rotl(x: u32, n: u32) -> u32 {
    (x << n) | (x >> ((32 - n) as u32))
}

/// The four bytes of `x`, most significant first.
pub open spec fn be32(x: u32) -> Seq<u8> {
    seq![(x >> 24) as u8, (x >> 16) as u8, (x >> 8) as u8, x as u8]
}

/// The eight bytes of `x`, most significant first.
pub open spec fn be64(x: u64) -> Seq<u8> {
    seq![
        (x >> 56) as u8,
        (x >> 48) as u8,
        (x >> 40) as u8,
        (x >> 32) as u8,
        (x >> 24) as u8,
        (x >> 16) as u8,
        (x >> 8) as u8,
        x as u8,
    ]
}

/// How many zero bytes stand between the marker and the length of a padded message.
pub open spec fn zero_count(len: nat) -> nat {
    ((119 - (len % 64) as int) % 64) as nat
}

/// The message as it is hashed: a marker, zeros up to 8 bytes short of a whole block, then the low
/// 64 bits of the length in bits.
pub open spec fn padded(data: Seq<u8>) -> Seq<u8> {
    data + seq![0x80u8] + Seq::new(zero_count(data.len()), |i: int| 0u8) + be64(
        ((data.len() * 8) % 0x1_0000_0000_0000_0000) as u64,
    )
}

/// The five words of the running digest.
pub struct Words {
    pub a: u32,
    pub b: u32,
    pub c: u32,
    pub d: u32,
    pub e: u32,
}

/// The words before the first block.
pub open spec fn initial_words() -> Words {
    Words { a: 0x67452301, b: 0xEFCDAB89, c: 0x98BADCFE, d: 0x10325476, e: 0xC3D2E1F0 }
}

/// Word `t` of the schedule of a block.
pub open spec fn schedule(block: Seq<u8>, t: int) -> u32
    decreases t,
{
    if t < 16 {
        ((block[4 * t] as u32) << 24) | ((block[4 * t + 1] as u32) << 16) | ((block[4 * t
            + 2] as u32) << 8) | (block[4 * t + 3] as u32)
    } else {
        rotl(
            schedule(block, t - 3) ^ schedule(block, t - 8) ^ schedule(block, t - 14) ^ schedule(
                block,
                t - 16,
            ),
            1,
        )
    }
}

/// How round `t` mixes three of the words.
pub open spec fn mix(t: int, b: u32, c: u32, d: u32) -> u32 {
    if t < 20 {
        (b & c) | ((!b) & d)
    } else if t < 40 {
        b ^ c ^ d
    } else if t < 60 {
        (b & c) | (b & d) | (c & d)
    } else {
        b ^ c ^ d
    }
}

/// The constant that round `t` adds.
pub open spec fn constant(t: int) -> u32 {
    if t < 20 {
        0x5A827999u32
    } else if t < 40 {
        0x6ED9EBA1u32
    } else if t < 60 {
        0x8F1BBCDCu32
    } else {
        0xCA62C1D6u32
    }
}

/// Round `t` with the schedule word `w`.
pub open spec fn round(s: Words, t: int, w: u32) -> Words {
    Words {
        a: rotl(s.a, 5).wrapping_add(mix(t, s.b, s.c, s.d)).wrapping_add(s.e).wrapping_add(
            constant(t),
        ).wrapping_add(w),
        b: s.a,
        c: rotl(s.b, 30),
        d: s.c,
        e: s.d,
    }
}

/// The words after the first `n` rounds over a block.
pub open spec fn rounds(s: Words, block: Seq<u8>, n: int) -> Words
    decreases n,
{
    if n <= 0 {
        s
    } else {
        round(rounds(s, block, n - 1), n - 1, schedule(block, n - 1))
    }
}

/// The words after a whole block: eighty rounds, added to what they started from.
pub open spec fn compress(s: Words, block: Seq<u8>) -> Words {
    let r = rounds(s, block, 80);
    Words {
        a: s.a.wrapping_add(r.a),
        b: s.b.wrapping_add(r.b),
        c: s.c.wrapping_add(r.c),
        d: s.d.wrapping_add(r.d),
        e: s.e.wrapping_add(r.e),
    }
}

/// The words after the first `n` blocks of a padded message.
pub open spec fn absorb(msg: Seq<u8>, n: int) -> Words
    decreases n,
{
    if n <= 0 {
        initial_words()
    } else {
        compress(absorb(msg, n - 1), msg.subrange(64 * (n - 1), 64 * n))
    }
}

/// The SHA-1 digest of `data`.
pub open spec fn sha1_digest(data: Seq<u8>) -> Seq<u8> {
    let msg = padded(data);
    let w = absorb(msg, msg.len() as int / 64);
    be32(w.a) + be32(w.b) + be32(w.c) + be32(w.d) + be32(w.e)
}

fn rotate_left(x: u32, n: u32) -> (r: u32)
    requires
        0 < n < 32,
    ensures
        r == rotl(x, n),
{
    (x << n) | (x >> (32 - n))
}

fn push_be32(out: &mut Vec<u8>, x: u32)
    ensures
        final(out)@ == old(out)@ + be32(x),
{
    out.push(#[verifier::truncate] ((x >> 24) as u8));
    out.push(#[verifier::truncate] ((x >> 16) as u8));
    out.push(#[verifier::truncate] ((x >> 8) as u8));
    out.push(#[verifier::truncate] (x as u8));
    assert(out@ =~= old(out)@ + be32(x));
}

/// Appends the eight bytes of `x`, most significant first.
pub(crate) fn push_be64(out: &mut Vec<u8>, x: u64)
    ensures
        final(out)@ == old(out)@ + be64(x),
{
    out.push(#[verifier::truncate] ((x >> 56) as u8));
    out.push(#[verifier::truncate] ((x >> 48) as u8));
    out.push(#[verifier::truncate] ((x >> 40) as u8));
    out.push(#[verifier::truncate] ((x >> 32) as u8));
    out.push(#[verifier::truncate] ((x >> 24) as u8));
    out.push(#[verifier::truncate] ((x >> 16) as u8));
    out.push(#[verifier::truncate] ((x >> 8) as u8));
    out.push(#[verifier::truncate] (x as u8));
    assert(out@ =~= old(out)@ + be64(x));
}

/// Pads a message to whole blocks.
fn pad(data: &[u8]) -> (msg: Vec<u8>)
    ensures
        msg@ == padded(data@),
        msg@.len() % 64 == 0,
{
    let mut msg: Vec<u8> = Vec::new();
    crate::text::append_bytes(&mut msg, data);
    msg.push(0x80);
    let ghost head = msg@;
    let ghost mut n: nat = 0;
    assert(head =~= data@ + seq![0x80u8]);
    assert(head + Seq::new(0, |i: int| 0u8) =~= head);
    while msg.len() % 64 != 56
        invariant
            head == data@ + seq![0x80u8],
            msg@ == head + Seq::new(n, |i: int| 0u8),
            n <= zero_count(data@.len()),
        decreases zero_count(data@.len()) - n,
    {
        assert(n < zero_count(data@.len()));
        msg.push(0);
        proof {
            n = n + 1;
        }
        assert(msg@ =~= head + Seq::new(n, |i: int| 0u8));
    }
    assert(n == zero_count(data@.len()));
    push_be64(&mut msg, (data.len() as u64).wrapping_mul(8));
    assert(msg@ =~= padded(data@));
    msg
}

/// The schedule of the block of `msg` that starts at `at`.
fn schedule_words(msg: &Vec<u8>, at: usize) -> (w: Vec<u32>)
    requires
        at + 64 <= msg@.len(),
    ensures
        w@.len() == 80,
        forall|t: int|
            0 <= t < 80 ==> w@[t] == #[trigger] schedule(msg@.subrange(at as int, at + 64), t),
{
    let ghost block = msg@.subrange(at as int, at + 64);
    let len: usize = msg.len();
    let mut w: Vec<u32> = Vec::new();
    let mut t: usize = 0;
    while t < 16
        invariant
            t <= 16,
            at + 64 <= len == msg@.len(),
            block == msg@.subrange(at as int, at + 64),
            w@.len() == t,
            forall|j: int| 0 <= j < t ==> w@[j] == #[trigger] schedule(block, j),
        decreases 16 - t,
    {
        let p: usize = at + 4 * t;
        w.push(
            ((msg[p] as u32) << 24) | ((msg[p + 1] as u32) << 16) | ((msg[p + 2] as u32) << 8) | (
            msg[p + 3] as u32),
        );
        assert(schedule(block, t as int) == w@[t as int]);
        t += 1;
    }
    while t < 80
        invariant
            16 <= t <= 80,
            w@.len() == t,
            forall|j: int| 0 <= j < t ==> w@[j] == #[trigger] schedule(block, j),
        decreases 80 - t,
    {
        let x: u32 = w[t - 3] ^ w[t - 8] ^ w[t - 14] ^ w[t - 16];
        assert(w@[t - 3] == schedule(block, t - 3));
        assert(w@[t - 8] == schedule(block, t - 8));
        assert(w@[t - 14] == schedule(block, t - 14));
        assert(w@[t - 16] == schedule(block, t - 16));
        w.push(rotate_left(x, 1));
        assert(schedule(block, t as int) == w@[t as int]);
        t += 1;
    }
    w
}

fn mix_words(t: usize, b: u32, c: u32, d: u32) -> (r: u32)
    ensures
        r == mix(t as int, b, c, d),
{
    if t < 20 {
        (b & c) | ((!b) & d)
    } else if t < 40 {
        b ^ c ^ d
    } else if t < 60 {
        (b & c) | (b & d) | (c & d)
    } else {
        b ^ c ^ d
    }
}

fn round_constant(t: usize) -> (r: u32)
    ensures
        r == constant(t as int),
{
    if t < 20 {
        0x5A827999u32
    } else if t < 40 {
        0x6ED9EBA1u32
    } else if t < 60 {
        0x8F1BBCDCu32
    } else {
        0xCA62C1D6u32
    }
}

/// Takes the block of `msg` that starts at `at` into the running digest.
fn compress_block(s: Words, msg: &Vec<u8>, at: usize) -> (r: Words)
    requires
        at + 64 <= msg@.len(),
    ensures
        r == compress(s, msg@.subrange(at as int, at + 64)),
{
    let ghost block = msg@.subrange(at as int, at + 64);
    let w = schedule_words(msg, at);
    let mut x = Words { a: s.a, b: s.b, c: s.c, d: s.d, e: s.e };
    let mut t: usize = 0;
    while t < 80
        invariant
            t <= 80,
            w@.len() == 80,
            forall|j: int| 0 <= j < 80 ==> w@[j] == #[trigger] schedule(block, j),
            x == rounds(s, block, t as int),
        decreases 80 - t,
    {
        assert(w@[t as int] == schedule(block, t as int));
        let f: u32 = mix_words(t, x.b, x.c, x.d);
        let temp: u32 = rotate_left(x.a, 5).wrapping_add(f).wrapping_add(x.e).wrapping_add(
            round_constant(t),
        ).wrapping_add(w[t]);
        x = Words { a: temp, b: x.a, c: rotate_left(x.b, 30), d: x.c, e: x.d };
        t += 1;
    }
    Words {
        a: s.a.wrapping_add(x.a),
        b: s.b.wrapping_add(x.b),
        c: s.c.wrapping_add(x.c),
        d: s.d.wrapping_add(x.d),
        e: s.e.wrapping_add(x.e),
    }
}

/// The SHA-1 digest of `data`: twenty bytes.
pub fn sha1(data: &[u8]) -> (r: Vec<u8>)
    ensures
        r@ == sha1_digest(data@),
        r@.len() == 20,
{
    let msg = pad(data);
    let len: usize = msg.len();
    let n: usize = len / 64;
    let mut s = Words {
        a: 0x67452301,
        b: 0xEFCDAB89,
        c: 0x98BADCFE,
        d: 0x10325476,
        e: 0xC3D2E1F0,
    };
    let mut k: usize = 0;
    while k < n
        invariant
            k <= n,
            n == len / 64,
            len == msg@.len(),
            s == absorb(msg@, k as int),
        decreases n - k,
    {
        s = compress_block(s, &msg, k * 64);
        k += 1;
    }
    let mut r: Vec<u8> = Vec::new();
    push_be32(&mut r, s.a);
    push_be32(&mut r, s.b);
    push_be32(&mut r, s.c);
    push_be32(&mut r, s.d);
    push_be32(&mut r, s.e);
    assert(r@ =~= sha1_digest(data@));
    r
}

// ---------------------------------------------------------------------------
// Laws

/// The bytes of a number are its digits to the base 256, most significant first.
pub proof fn bytes_are_digits(x: u32, y: u64)
    ensures
        be32(x).len() == 4,
        be64(y).len() == 8,
        be32(x)[0] * 0x100_0000 + be32(x)[1] * 0x1_0000 + be32(x)[2] * 0x100 + be32(x)[3] == x,
        be64(y)[0] * 0x100_0000_0000_0000 + be64(y)[1] * 0x1_0000_0000_0000 + be64(y)[2]
            * 0x100_0000_0000 + be64(y)[3] * 0x1_0000_0000 + be64(y)[4] * 0x100_0000 + be64(y)[5]
            * 0x1_0000 + be64(y)[6] * 0x100 + be64(y)[7] == y,
{
    assert(((x >> 24) as u8) * 0x100_0000 + ((x >> 16) as u8) * 0x1_0000 + ((x >> 8) as u8) * 0x100
        + (x as u8) == x) by (bit_vector);
    assert(((y >> 56) as u8) * 0x100_0000_0000_0000 + ((y >> 48) as u8) * 0x1_0000_0000_0000 + ((y
        >> 40) as u8) * 0x100_0000_0000 + ((y >> 32) as u8) * 0x1_0000_0000 + ((y >> 24) as u8)
        * 0x100_0000 + ((y >> 16) as u8) * 0x1_0000 + ((y >> 8) as u8) * 0x100 + (y as u8)
        == y) by (bit_vector);
}

/// A message is hashed with everything that is in it: it stands whole in front of what fills it up,
/// which is one marker, then zeros, then its length in bits, and takes as few blocks as there can
/// be.
pub proof fn messages_are_padded_whole(data: Seq<u8>)
    requires
        data.len() * 8 <= u64::MAX,
    ensures
        ({
            let m = padded(data);
            let n = m.len() as int;
            &&& n % 64 == 0
            &&& data.len() + 9 <= n < data.len() + 73
            &&& m.take(data.len() as int) == data
            &&& m[data.len() as int] == 0x80
            &&& forall|i: int| data.len() < i < n - 8 ==> #[trigger] m[i] == 0
            &&& m[n - 8] * 0x100_0000_0000_0000 + m[n - 7] * 0x1_0000_0000_0000 + m[n - 6]
                * 0x100_0000_0000 + m[n - 5] * 0x1_0000_0000 + m[n - 4] * 0x100_0000 + m[n - 3]
                * 0x1_0000 + m[n - 2] * 0x100 + m[n - 1] == data.len() * 8
        }),
{
    let m = padded(data);
    let n = m.len() as int;
    let bits = (data.len() * 8) as u64;
    let b = be64(bits);
    bytes_are_digits(0, bits);
    assert((data.len() * 8) % 0x1_0000_0000_0000_0000 == data.len() * 8);
    assert(m.take(data.len() as int) =~= data);
    assert(m[n - 8] == b[0] && m[n - 7] == b[1] && m[n - 6] == b[2] && m[n - 5] == b[3] && m[n - 4]
        == b[4] && m[n - 3] == b[5] && m[n - 2] == b[6] && m[n - 1] == b[7]);
}

/// The digest is made of the five words that are left once every block of the padded message has
/// been taken in, none left out.
pub proof fn digests_take_every_block(data: Seq<u8>, n: int)
    requires
        padded(data).len() == 64 * n,
    ensures
        ({
            let d = sha1_digest(data);
            let w = absorb(padded(data), n);
            &&& d.len() == 20
            &&& d[0] * 0x100_0000 + d[1] * 0x1_0000 + d[2] * 0x100 + d[3] == w.a
            &&& d[4] * 0x100_0000 + d[5] * 0x1_0000 + d[6] * 0x100 + d[7] == w.b
            &&& d[8] * 0x100_0000 + d[9] * 0x1_0000 + d[10] * 0x100 + d[11] == w.c
            &&& d[12] * 0x100_0000 + d[13] * 0x1_0000 + d[14] * 0x100 + d[15] == w.d
            &&& d[16] * 0x100_0000 + d[17] * 0x1_0000 + d[18] * 0x100 + d[19] == w.e
        }),
{
    let w = absorb(padded(data), n);
    bytes_are_digits(w.a, 0);
    bytes_are_digits(w.b, 0);
    bytes_are_digits(w.c, 0);
    bytes_are_digits(w.d, 0);
    bytes_are_digits(w.e, 0);
}

/// A rotation moves the bits that leave at the top to the bottom.
pub proof fn rotations_lose_no_bit(x: u32)
    ensures
        rotl(x, 1) == (x * 2) % 0x1_0000_0000 + x / 0x8000_0000,
        rotl(x, 5) == (x * 32) % 0x1_0000_0000 + x / 0x800_0000,
        rotl(x, 30) == (x * 0x4000_0000) % 0x1_0000_0000 + x / 4,
{
    assert(((x << 1) | (x >> 31)) == (x * 2) % 0x1_0000_0000 + x / 0x8000_0000) by (bit_vector);
    assert(((x << 5) | (x >> 27)) == (x * 32) % 0x1_0000_0000 + x / 0x800_0000) by (bit_vector);
    assert(((x << 30) | (x >> 2)) == (x * 0x4000_0000) % 0x1_0000_0000 + x / 4) by (bit_vector);
}

/// What the rounds mix: in the first twenty the first word chooses between the other two, in the
/// third twenty the majority counts, and in the others the parity. The constant that they add is the
/// root of 2, 3, 5 and 10 in turn, cut off behind thirty binary places.
pub proof fn rounds_mix_by_the_book(t: int, b: u32, c: u32, d: u32)
    requires
        0 <= t < 80,
    ensures
        t < 20 ==> mix(t, b, c, d) == d ^ (b & (c ^ d)),
        40 <= t < 60 ==> mix(t, b, c, d) == (b & (c | d)) | (c & d),
        20 <= t < 40 || 60 <= t ==> mix(t, b, c, d) == b ^ (c ^ d),
        ({
            let k = constant(t) as int;
            let root = if t < 20 {
                2int
            } else if t < 40 {
                3
            } else if t < 60 {
                5
            } else {
                10
            };
            k * k <= root * 0x1000_0000_0000_0000 < (k + 1) * (k + 1)
        }),
{
    assert((b & c) | ((!b) & d) == d ^ (b & (c ^ d))) by (bit_vector);
    assert((b & c) | (b & d) | (c & d) == (b & (c | d)) | (c & d)) by (bit_vector);
    assert(b ^ c ^ d == b ^ (c ^ d)) by (bit_vector);
    assert(0x5A827999 * 0x5A827999 <= 2 * 0x1000_0000_0000_0000int < 0x5A82799A * 0x5A82799Aint);
    assert(0x6ED9EBA1 * 0x6ED9EBA1 <= 3 * 0x1000_0000_0000_0000int < 0x6ED9EBA2 * 0x6ED9EBA2int);
    assert(0x8F1BBCDC * 0x8F1BBCDC <= 5 * 0x1000_0000_0000_0000int < 0x8F1BBCDD * 0x8F1BBCDDint);
    assert(0xCA62C1D6 * 0xCA62C1D6 <= 10 * 0x1000_0000_0000_0000int < 0xCA62C1D7 * 0xCA62C1D7int);
}

/// What a block does to the words: sixteen of its schedule words are its bytes, most significant
/// first, each of the others is four earlier ones laid over each other and rotated, every round
/// moves the words on by one place, and the sums are taken modulo 2^32.
pub proof fn blocks_are_taken_in_by_the_book(s: Words, block: Seq<u8>, t: int)
    requires
        block.len() == 64,
        0 <= t < 80,
    ensures
        t < 16 ==> schedule(block, t) == block[4 * t] * 0x100_0000 + block[4 * t + 1] * 0x1_0000
            + block[4 * t + 2] * 0x100 + block[4 * t + 3],
        t >= 16 ==> schedule(block, t) == rotl(
            schedule(block, t - 3) ^ schedule(block, t - 8) ^ schedule(block, t - 14) ^ schedule(
                block,
                t - 16,
            ),
            1,
        ),
        rounds(s, block, 0) == s,
        ({
            let x = rounds(s, block, t);
            let y = rounds(s, block, t + 1);
            &&& y.a == (rotl(x.a, 5) + mix(t, x.b, x.c, x.d) + x.e + constant(t) + schedule(
                block,
                t,
            )) % 0x1_0000_0000
            &&& y.b == x.a
            &&& y.c == rotl(x.b, 30)
            &&& y.d == x.c
            &&& y.e == x.d
        }),
        ({
            let x = rounds(s, block, 80);
            let y = compress(s, block);
            &&& y.a == (s.a + x.a) % 0x1_0000_0000
            &&& y.b == (s.b + x.b) % 0x1_0000_0000
            &&& y.c == (s.c + x.c) % 0x1_0000_0000
            &&& y.d == (s.d + x.d) % 0x1_0000_0000
            &&& y.e == (s.e + x.e) % 0x1_0000_0000
        }),
{
    if t < 16 {
        let a = block[4 * t] as u32;
        let b = block[4 * t + 1] as u32;
        let c = block[4 * t + 2] as u32;
        let d = block[4 * t + 3] as u32;
        assert(((a << 24) | (b << 16) | (c << 8) | d) == a * 0x100_0000 + b * 0x1_0000 + c * 0x100
            + d) by (bit_vector)
            requires
                a < 256,
                b < 256,
                c < 256,
                d < 256,
        ;
    }
}

/// The words before the first block are those of the standard, and each block is taken in after the
/// one before it.
pub proof fn blocks_are_taken_in_one_by_one(msg: Seq<u8>, n: int)
    requires
        n >= 0,
        msg.len() >= 64 * (n + 1),
    ensures
        absorb(msg, 0) == (Words {
            a: 0x67452301,
            b: 0xEFCDAB89,
            c: 0x98BADCFE,
            d: 0x10325476,
            e: 0xC3D2E1F0,
        }),
        absorb(msg, n + 1) == compress(absorb(msg, n), msg.skip(64 * n).take(64)),
{
    assert(msg.subrange(64 * n, 64 * (n + 1)) =~= msg.skip(64 * n).take(64));
}

} // verus!
