//! The base64 encoding, with padding.
use vstd::prelude::*;

verus! {

/// The character that stands for the six bits `i`.
#[verifier::opaque]
pub open spec fn alphabet(i: int) -> char {
    if i < 26 {
        (65 + i) as char
    } else if i < 52 {
        (97 + (i - 26)) as char
    } else if i < 62 {
        (48 + (i - 52)) as char
    } else if i == 62 {
        '+'
    } else {
        '/'
    }
}

/// The group of 24 bits that three bytes make.
pub open spec fn group(b0: u8, b1: u8, b2: u8) -> int {
    b0 * 65536 + b1 * 256 + b2
}

/// `data` in base64: four characters for each three bytes, the last group filled up with `=`.
pub open spec fn encoded(data: Seq<u8>) -> Seq<char>
    decreases data.len(),
{
    if data.len() == 0 {
        Seq::empty()
    } else if data.len() == 1 {
        let n = group(data[0], 0, 0);
        seq![alphabet(n / 262144), alphabet((n / 4096) % 64), '=', '=']
    } else if data.len() == 2 {
        let n = group(data[0], data[1], 0);
        seq![alphabet(n / 262144), alphabet((n / 4096) % 64), alphabet((n / 64) % 64), '=']
    } else {
        let n = group(data[0], data[1], data[2]);
        seq![
            alphabet(n / 262144),
            alphabet((n / 4096) % 64),
            alphabet((n / 64) % 64),
            alphabet(n % 64),
        ] + encoded(data.skip(3))
    }
}

fn alphabet_char(i: u32) -> (c: char)
    requires
        i < 64,
    ensures
        c == alphabet(i as int),
{
    reveal(alphabet);
    if i < 26 {
        (65u8 + i as u8) as char
    } else if i < 52 {
        (97u8 + (i - 26) as u8) as char
    } else if i < 62 {
        (48u8 + (i - 52) as u8) as char
    } else if i == 62 {
        '+'
    } else {
        '/'
    }
}

/// Encodes `data` in base64.
pub fn base64(data: &[u8]) -> (out: String)
    ensures
        out@ == encoded(data@),
{
    let len: usize = data.len();
    let mut out = String::new();
    let mut i: usize = 0;
    assert(data@.skip(0) == data@);
    assert(out@ + encoded(data@) =~= encoded(data@));
    while i < len
        invariant
            i <= len == data@.len(),
            encoded(data@) == out@ + encoded(data@.skip(i as int)),
        decreases len - i,
    {
        let left: usize = len - i;
        let ghost rest = data@.skip(i as int);
        let ghost before = out@;
        let b0: u32 = data[i] as u32;
        let b1: u32 = if left > 1 {
            data[i + 1] as u32
        } else {
            0
        };
        let b2: u32 = if left > 2 {
            data[i + 2] as u32
        } else {
            0
        };
        let n: u32 = b0 * 65536 + b1 * 256 + b2;
        out.push(alphabet_char(n / 262144));
        out.push(alphabet_char((n / 4096) % 64));
        if left > 1 {
            out.push(alphabet_char((n / 64) % 64));
        } else {
            out.push('=');
        }
        if left > 2 {
            out.push(alphabet_char(n % 64));
        } else {
            out.push('=');
        }
        if left > 3 {
            i += 3;
            assert(rest.skip(3) == data@.skip(i as int));
        } else {
            i = len;
            assert(rest.len() == 3 ==> rest.skip(3) =~= data@.skip(i as int));
        }
        assert(data@.skip(len as int) =~= Seq::<u8>::empty());
        assert(before + encoded(rest) =~= out@ + encoded(data@.skip(i as int)));
    }
    assert(data@.skip(i as int) =~= Seq::<u8>::empty());
    assert(out@ + Seq::<char>::empty() =~= out@);
    out
}

/// The encoding of `data` has four characters for each three bytes begun.
pub proof fn encoded_length(data: Seq<u8>)
    ensures
        encoded(data).len() == (data.len() + 2) / 3 * 4,
    decreases data.len(),
{
    if data.len() > 2 {
        encoded_length(data.skip(3));
    }
}

/// How many characters at the end of the encoding of `len` bytes only fill it up.
pub open spec fn filling(len: nat) -> nat {
    ((3 - (len % 3) as int) % 3) as nat
}

/// Whether `c` stands for six bits.
pub open spec fn in_alphabet(c: char) -> bool {
    'A' <= c <= 'Z' || 'a' <= c <= 'z' || '0' <= c <= '9' || c == '+' || c == '/'
}

/// What stands for six bits is a character of the alphabet.
proof fn lemma_in_alphabet(i: int)
    requires
        0 <= i < 64,
    ensures
        in_alphabet(alphabet(i)),
{
    reveal(alphabet);
}

/// The first four characters of an encoding: as many as the first group has bytes, and one more, are
/// of the alphabet.
proof fn lemma_first_four(data: Seq<u8>)
    requires
        data.len() > 0,
    ensures
        encoded(data).len() >= 4,
        forall|i: int|
            0 <= i < 4 ==> if i <= data.len() {
                in_alphabet(#[trigger] encoded(data)[i])
            } else {
                encoded(data)[i] == '='
            },
{
    let b1: u8 = if data.len() > 1 {
        data[1]
    } else {
        0
    };
    let b2: u8 = if data.len() > 2 {
        data[2]
    } else {
        0
    };
    let n = group(data[0], b1, b2);
    assert(0 <= n / 262144 < 64);
    lemma_in_alphabet(n / 262144);
    lemma_in_alphabet((n / 4096) % 64);
    lemma_in_alphabet((n / 64) % 64);
    lemma_in_alphabet(n % 64);
}

/// An encoding is made of letters, digits, plus signs and slashes, and of as many `=` at its end as
/// it takes to fill up the last group.
pub proof fn encoded_characters(data: Seq<u8>)
    ensures
        forall|i: int|
            0 <= i < encoded(data).len() - filling(data.len()) ==> in_alphabet(
                #[trigger] encoded(data)[i],
            ),
        forall|i: int|
            encoded(data).len() - filling(data.len()) <= i < encoded(data).len()
                ==> #[trigger] encoded(data)[i] == '=',
    decreases data.len(),
{
    if data.len() > 0 {
        lemma_first_four(data);
    }
    if data.len() > 2 {
        encoded_characters(data.skip(3));
        encoded_length(data.skip(3));
        let rest = encoded(data.skip(3));
        let all = encoded(data);
        assert(forall|i: int| 4 <= i < all.len() ==> all[i] == rest[i - 4]);
        assert(filling(data.len()) == filling(data.skip(3).len()));
        assert(filling(data.len()) <= rest.len());
    }
}

/// The six bits that a character stands for.
pub open spec fn six_bits(c: char) -> Option<int> {
    if 'A' <= c <= 'Z' {
        Some(c as int - 'A' as int)
    } else if 'a' <= c <= 'z' {
        Some(c as int - 'a' as int + 26)
    } else if '0' <= c <= '9' {
        Some(c as int - '0' as int + 52)
    } else if c == '+' {
        Some(62)
    } else if c == '/' {
        Some(63)
    } else {
        None
    }
}

/// The bytes that a group of four characters stands for: three, or fewer where the group is filled
/// up.
#[verifier::opaque]
pub open spec fn group_bytes(a: char, b: char, c: char, d: char) -> Option<Seq<u8>> {
    match (six_bits(a), six_bits(b), six_bits(c), six_bits(d)) {
        (Some(w), Some(x), Some(y), Some(z)) => {
            let n = ((w * 64 + x) * 64 + y) * 64 + z;
            Some(seq![(n / 65536) as u8, ((n / 256) % 256) as u8, (n % 256) as u8])
        },
        (Some(w), Some(x), Some(y), None) if d == '=' => {
            let n = ((w * 64 + x) * 64 + y) * 64;
            Some(seq![(n / 65536) as u8, ((n / 256) % 256) as u8])
        },
        (Some(w), Some(x), None, None) if c == '=' && d == '=' => {
            let n = (w * 64 + x) * 4096;
            Some(seq![(n / 65536) as u8])
        },
        _ => None,
    }
}

/// The bytes that a text in base64 stands for. Only its last group may be filled up.
pub open spec fn decoded(s: Seq<char>) -> Option<Seq<u8>>
    decreases s.len(),
{
    if s.len() == 0 {
        Some(Seq::empty())
    } else if s.len() < 4 {
        None
    } else {
        match (group_bytes(s[0], s[1], s[2], s[3]), decoded(s.skip(4))) {
            (Some(first), Some(rest)) => if s.len() == 4 || first.len() == 3 {
                Some(first + rest)
            } else {
                None
            },
            _ => None,
        }
    }
}

/// Six bits come back from the character that stands for them.
proof fn lemma_six_bits(i: int)
    requires
        0 <= i < 64,
    ensures
        six_bits(alphabet(i)) == Some(i),
{
    reveal(alphabet);
}

/// Four times six bits make up the 24 bits that they were taken from.
proof fn lemma_parts(n: int)
    requires
        0 <= n < 16777216,
    ensures
        0 <= n / 262144 < 64,
        ((n / 262144 * 64 + (n / 4096) % 64) * 64 + (n / 64) % 64) * 64 + n % 64 == n,
{
    let p = n / 64;
    assert(n == 64 * p + n % 64);
    let q = p / 64;
    assert(p == 64 * q + p % 64);
    assert(q == n / 4096);
    let r = q / 64;
    assert(q == 64 * r + q % 64);
    assert(r == n / 262144);
}

/// Three bytes come back from the 24 bits that they make.
proof fn lemma_bytes(b0: u8, b1: u8, b2: u8)
    ensures
        0 <= group(b0, b1, b2) < 16777216,
        group(b0, b1, b2) / 65536 == b0,
        (group(b0, b1, b2) / 256) % 256 == b1,
        group(b0, b1, b2) % 256 == b2,
{
    let n = group(b0, b1, b2);
    let q = b0 * 256 + b1;
    assert(n == q * 256 + b2);
    assert(n / 256 == q);
}

/// A group of three bytes comes back from its four characters.
proof fn lemma_three(b0: u8, b1: u8, b2: u8)
    ensures
        ({
            let n = group(b0, b1, b2);
            group_bytes(
                alphabet(n / 262144),
                alphabet((n / 4096) % 64),
                alphabet((n / 64) % 64),
                alphabet(n % 64),
            ) == Some(seq![b0, b1, b2])
        }),
{
    reveal(group_bytes);
    let n = group(b0, b1, b2);
    lemma_bytes(b0, b1, b2);
    lemma_parts(n);
    lemma_six_bits(n / 262144);
    lemma_six_bits((n / 4096) % 64);
    lemma_six_bits((n / 64) % 64);
    lemma_six_bits(n % 64);
}

/// A group of two bytes comes back from its three characters.
proof fn lemma_two(b0: u8, b1: u8)
    ensures
        ({
            let n = group(b0, b1, 0);
            group_bytes(
                alphabet(n / 262144),
                alphabet((n / 4096) % 64),
                alphabet((n / 64) % 64),
                '=',
            ) == Some(seq![b0, b1])
        }),
{
    reveal(group_bytes);
    let n = group(b0, b1, 0);
    lemma_bytes(b0, b1, 0);
    lemma_parts(n);
    lemma_six_bits(n / 262144);
    lemma_six_bits((n / 4096) % 64);
    lemma_six_bits((n / 64) % 64);
    assert(n % 64 == 0);
}

/// A single byte comes back from its two characters.
proof fn lemma_one(b0: u8)
    ensures
        ({
            let n = group(b0, 0, 0);
            group_bytes(alphabet(n / 262144), alphabet((n / 4096) % 64), '=', '=') == Some(
                seq![b0],
            )
        }),
{
    reveal(group_bytes);
    let n = group(b0, 0, 0);
    lemma_bytes(b0, 0, 0);
    lemma_parts(n);
    lemma_six_bits(n / 262144);
    lemma_six_bits((n / 4096) % 64);
    assert(n % 4096 == 0);
    assert((n / 64) % 64 == 0);
    assert(n % 64 == 0);
}

/// What was encoded is decoded again.
pub proof fn encoding_round_trips(data: Seq<u8>)
    ensures
        decoded(encoded(data)) == Some(data),
    decreases data.len(),
{
    let s = encoded(data);
    let none = Seq::<char>::empty();
    assert(decoded(none) == Some(Seq::<u8>::empty()));
    if data.len() == 0 {
        assert(data =~= Seq::<u8>::empty());
    } else if data.len() == 1 {
        lemma_one(data[0]);
        assert(s.skip(4) =~= none);
        assert(seq![data[0]] + Seq::<u8>::empty() =~= data);
    } else if data.len() == 2 {
        lemma_two(data[0], data[1]);
        assert(s.skip(4) =~= none);
        assert(seq![data[0], data[1]] + Seq::<u8>::empty() =~= data);
    } else {
        lemma_three(data[0], data[1], data[2]);
        encoding_round_trips(data.skip(3));
        assert(s.skip(4) =~= encoded(data.skip(3)));
        assert(seq![data[0], data[1], data[2]] + data.skip(3) =~= data);
    }
}

/// Different bytes have different encodings.
pub proof fn encodings_are_distinct(a: Seq<u8>, b: Seq<u8>)
    requires
        encoded(a) == encoded(b),
    ensures
        a == b,
{
    encoding_round_trips(a);
    encoding_round_trips(b);
}

/// The sixty-four characters of the alphabet, in order.
pub proof fn the_alphabet_is_the_published_one(i: int)
    requires
        0 <= i < 64,
    ensures
        "ABCDEFGHIJKLMNOPQRSTUVWXYZabcdefghijklmnopqrstuvwxyz0123456789+/"@.len() == 64,
        alphabet(i) == "ABCDEFGHIJKLMNOPQRSTUVWXYZabcdefghijklmnopqrstuvwxyz0123456789+/"@[i],
{
    reveal(alphabet);
    reveal_strlit("ABCDEFGHIJKLMNOPQRSTUVWXYZabcdefghijklmnopqrstuvwxyz0123456789+/");
}

/// The bits of three bytes are those of their four characters, in order.
pub proof fn three_bytes_are_four_characters(b: u8, c: u8, d: u8)
    ensures
        ({
            let e = encoded(seq![b, c, d]);
            &&& e.len() == 4
            &&& six_bits(e[0]) matches Some(w) && six_bits(e[1]) matches Some(x) && six_bits(
                e[2],
            ) matches Some(y) && six_bits(e[3]) matches Some(z) && ((w * 64 + x) * 64 + y) * 64 + z
                == b * 65536 + c * 256 + d
        }),
{
    lemma_group_bits(b, c, d);
    let none = Seq::<u8>::empty();
    assert(seq![b, c, d].skip(3) =~= none);
    assert(encoded(none).len() == 0);
}

/// The bits of two bytes are those of their three characters, in order, of which the last ends in
/// two bits that are 0.
pub proof fn two_bytes_are_three_characters(b: u8, c: u8)
    ensures
        ({
            let e = encoded(seq![b, c]);
            &&& e.len() == 4 && e[3] == '='
            &&& six_bits(e[0]) matches Some(w) && six_bits(e[1]) matches Some(x) && six_bits(
                e[2],
            ) matches Some(y) && ((w * 64 + x) * 64 + y) * 64 == b * 65536 + c * 256
        }),
{
    lemma_group_bits(b, c, 0);
    assert(group(b, c, 0) % 64 == 0);
}

/// The bits of one byte are those of its two characters, in order, of which the second ends in four
/// bits that are 0.
pub proof fn one_byte_is_two_characters(b: u8)
    ensures
        ({
            let e = encoded(seq![b]);
            &&& e.len() == 4 && e[2] == '=' && e[3] == '='
            &&& six_bits(e[0]) matches Some(w) && six_bits(e[1]) matches Some(x) && (w * 64 + x)
                * 4096 == b * 65536
        }),
{
    lemma_group_bits(b, 0, 0);
    let n = group(b, 0, 0);
    assert(n % 64 == 0);
    assert((n / 64) % 64 == 0);
}

/// Whole groups are encoded by themselves, whatever follows them.
pub proof fn groups_are_encoded_by_themselves(groups: Seq<u8>, rest: Seq<u8>)
    requires
        groups.len() % 3 == 0,
    ensures
        encoded(Seq::<u8>::empty()).len() == 0,
        encoded(groups + rest) == encoded(groups) + encoded(rest),
{
    lemma_groups(groups, rest);
}

/// The six bits of each of the four characters of a group make up its 24 bits.
proof fn lemma_group_bits(b: u8, c: u8, d: u8)
    ensures
        ({
            let n = group(b, c, d);
            &&& six_bits(alphabet(n / 262144)) == Some(n / 262144)
            &&& six_bits(alphabet((n / 4096) % 64)) == Some((n / 4096) % 64)
            &&& six_bits(alphabet((n / 64) % 64)) == Some((n / 64) % 64)
            &&& six_bits(alphabet(n % 64)) == Some(n % 64)
            &&& ((n / 262144 * 64 + (n / 4096) % 64) * 64 + (n / 64) % 64) * 64 + n % 64 == n
        }),
{
    let n = group(b, c, d);
    lemma_bytes(b, c, d);
    lemma_parts(n);
    lemma_six_bits(n / 262144);
    lemma_six_bits((n / 4096) % 64);
    lemma_six_bits((n / 64) % 64);
    lemma_six_bits(n % 64);
}

proof fn lemma_groups(groups: Seq<u8>, rest: Seq<u8>)
    requires
        groups.len() % 3 == 0,
    ensures
        encoded(groups + rest) == encoded(groups) + encoded(rest),
    decreases groups.len(),
{
    let all = groups + rest;
    if groups.len() > 0 {
        lemma_groups(groups.skip(3), rest);
        assert(all.skip(3) =~= groups.skip(3) + rest);
        assert(all[0] == groups[0] && all[1] == groups[1] && all[2] == groups[2]);
        assert(encoded(all) =~= encoded(groups) + encoded(rest));
    } else {
        assert(all =~= rest);
        assert(encoded(groups) + encoded(rest) =~= encoded(rest));
    }
}

} // verus!
