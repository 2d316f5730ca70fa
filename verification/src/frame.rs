//! WebSocket frames (RFC 6455): a client writes masked frames and reads plain ones, a server the
//! other way round.
use crate::sha1;
use crate::sha1::push_be64;
use crate::text::append_bytes;
use vstd::prelude::*;

verus! {

/// A text frame.
pub const OP_TEXT: u8 = 0x01;

/// A binary frame.
pub const OP_BINARY: u8 = 0x02;

/// A close frame.
pub const OP_CLOSE: u8 = 0x08;

/// A ping frame.
pub const OP_PING: u8 = 0x09;

/// A pong frame.
pub const OP_PONG: u8 = 0x0A;

// ---------------------------------------------------------------------------
// Writing

/// The length part of a frame header: one byte, whose top bit tells whether a mask follows, then
/// two or eight bytes where the length needs them.
pub open spec fn length_field(masked: bool, len: nat) -> Seq<u8> {
    let top = if masked {
        128
    } else {
        0int
    };
    if len < 126 {
        seq![(top + len) as u8]
    } else if len < 65536 {
        seq![(top + 126) as u8, (len / 256) as u8, (len % 256) as u8]
    } else {
        seq![(top + 127) as u8] + sha1::be64(len as u64)
    }
}

/// `payload` with the four mask bytes laid over it again and again.
pub open spec fn masked(payload: Seq<u8>, mask: Seq<u8>) -> Seq<u8> {
    Seq::new(payload.len(), |i: int| payload[i] ^ mask[i % 4])
}

/// A whole masked frame.
pub open spec fn masked_frame(opcode: u8, payload: Seq<u8>, mask: Seq<u8>) -> Seq<u8> {
    seq![0x80u8 | opcode] + length_field(true, payload.len()) + mask + masked(payload, mask)
}

/// A whole frame without a mask.
pub open spec fn plain_frame(opcode: u8, payload: Seq<u8>) -> Seq<u8> {
    seq![0x80u8 | opcode] + length_field(false, payload.len()) + payload
}

fn push_header(out: &mut Vec<u8>, opcode: u8, is_masked: bool, len: usize)
    ensures
        final(out)@ == old(out)@ + seq![0x80u8 | opcode] + length_field(is_masked, len as nat),
{
    let ghost before = out@;
    let top: u8 = if is_masked {
        128
    } else {
        0
    };
    out.push(0x80 | opcode);
    if len < 126 {
        out.push(top + len as u8);
    } else if len < 65536 {
        out.push(top + 126);
        out.push((len / 256) as u8);
        out.push((len % 256) as u8);
    } else {
        out.push(top + 127);
        push_be64(out, len as u64);
    }
    assert(out@ =~= before + seq![0x80u8 | opcode] + length_field(is_masked, len as nat));
}

/// The bytes of a masked frame, as a client sends it.
pub fn encode_masked(opcode: u8, payload: &[u8], mask: [u8; 4]) -> (out: Vec<u8>)
    ensures
        out@ == masked_frame(opcode, payload@, mask@),
{
    let len: usize = payload.len();
    let mut out: Vec<u8> = Vec::new();
    push_header(&mut out, opcode, true, len);
    out.push(mask[0]);
    out.push(mask[1]);
    out.push(mask[2]);
    out.push(mask[3]);
    let ghost head = out@;
    assert(head =~= seq![0x80u8 | opcode] + length_field(true, len as nat) + mask@);
    let mut i: usize = 0;
    while i < len
        invariant
            i <= len == payload@.len(),
            out@ == head + masked(payload@, mask@).take(i as int),
        decreases len - i,
    {
        out.push(payload[i] ^ mask[i % 4]);
        i += 1;
        assert(masked(payload@, mask@).take(i as int) =~= masked(payload@, mask@).take(i - 1).push(
            payload@[i - 1] ^ mask@[(i - 1) % 4],
        ));
    }
    assert(masked(payload@, mask@).take(i as int) =~= masked(payload@, mask@));
    out
}

/// The bytes of a frame without a mask, as a server sends it.
pub fn encode_plain(opcode: u8, payload: &[u8]) -> (out: Vec<u8>)
    ensures
        out@ == plain_frame(opcode, payload@),
{
    let mut out: Vec<u8> = Vec::new();
    push_header(&mut out, opcode, false, payload.len());
    append_bytes(&mut out, payload);
    assert(out@ =~= plain_frame(opcode, payload@));
    out
}

// ---------------------------------------------------------------------------
// Reading

/// What the bytes that have arrived so far amount to.
pub enum Decoded {
    /// The next part of the frame takes this many more bytes.
    More(u64),
    /// The header announces a payload above the limit.
    TooLong,
    /// A frame is complete; it took `consumed` bytes.
    Whole { opcode: u8, payload: Vec<u8>, consumed: usize },
}

/// What `Decoded` says, over sequences.
pub enum Decoding {
    More(int),
    TooLong,
    Whole { opcode: u8, payload: Seq<u8>, consumed: int },
}

impl View for Decoded {
    type V = Decoding;

    open spec fn view(&self) -> Decoding {
        match *self {
            Decoded::More(n) => Decoding::More(n as int),
            Decoded::TooLong => Decoding::TooLong,
            Decoded::Whole { opcode, payload, consumed } => Decoding::Whole {
                opcode,
                payload: payload@,
                consumed: consumed as int,
            },
        }
    }
}

/// How many bytes of extended length the second byte of a header announces.
pub open spec fn extension(second: u8) -> int {
    if second % 128 == 126 {
        2
    } else if second % 128 == 127 {
        8
    } else {
        0
    }
}

/// The number that eight bytes write, most significant first.
pub open spec fn from_be64(s: Seq<u8>) -> u64 {
    ((s[0] as u64) << 56) | ((s[1] as u64) << 48) | ((s[2] as u64) << 40) | ((s[3] as u64) << 32)
        | ((s[4] as u64) << 24) | ((s[5] as u64) << 16) | ((s[6] as u64) << 8) | (s[7] as u64)
}

/// The payload length that a header with all its length bytes announces.
pub open spec fn announced(input: Seq<u8>) -> int {
    let short = input[1] % 128;
    if short == 126 {
        input[2] * 256 + input[3]
    } else if short == 127 {
        from_be64(input.skip(2)) as int
    } else {
        short as int
    }
}

/// The size of a whole header: opcode, length and, where the second byte says so, the mask.
pub open spec fn header_size(second: u8) -> int {
    2 + extension(second) + if second >= 128 {
        4int
    } else {
        0
    }
}

/// Reads one frame from the front of `input`, refusing payloads above `limit` as soon as the
/// length is known. A header comes in parts: two bytes, the extended length, the mask.
pub open spec fn decode(input: Seq<u8>, limit: int) -> Decoding {
    let have = input.len() as int;
    if have < 2 {
        Decoding::More(2 - have)
    } else {
        let ext = 2 + extension(input[1]);
        let head = header_size(input[1]);
        if have < ext {
            Decoding::More(ext - have)
        } else if announced(input) > limit {
            Decoding::TooLong
        } else if have < head {
            Decoding::More(head - have)
        } else if have < head + announced(input) {
            Decoding::More(head + announced(input) - have)
        } else {
            let body = input.subrange(head, head + announced(input));
            Decoding::Whole {
                opcode: input[0] % 16,
                payload: if input[1] >= 128 {
                    masked(body, input.subrange(head - 4, head))
                } else {
                    body
                },
                consumed: head + announced(input),
            }
        }
    }
}

fn read_announced(input: &[u8]) -> (len: u64)
    requires
        input@.len() >= 2 + extension(input@[1]),
        input@.len() >= 2,
    ensures
        len == announced(input@),
{
    let short: u8 = input[1] % 128;
    if short == 126 {
        input[2] as u64 * 256 + input[3] as u64
    } else if short == 127 {
        let ghost s = input@.skip(2);
        assert(s[0] == input@[2] && s[1] == input@[3] && s[2] == input@[4] && s[3] == input@[5]
            && s[4] == input@[6] && s[5] == input@[7] && s[6] == input@[8] && s[7] == input@[9]);
        ((input[2] as u64) << 56) | ((input[3] as u64) << 48) | ((input[4] as u64) << 40) | ((
        input[5] as u64) << 32) | ((input[6] as u64) << 24) | ((input[7] as u64) << 16) | ((
        input[8] as u64) << 8) | (input[9] as u64)
    } else {
        short as u64
    }
}

/// Copies the payload out of a complete frame, and takes the mask off.
fn read_payload(input: &[u8], head: usize, len: usize, is_masked: bool) -> (payload: Vec<u8>)
    requires
        head + len <= input@.len(),
        is_masked ==> head >= 4,
    ensures
        payload@ == if is_masked {
            masked(
                input@.subrange(head as int, head + len),
                input@.subrange(head - 4, head as int),
            )
        } else {
            input@.subrange(head as int, head + len)
        },
{
    let total: usize = input.len();
    let ghost body = input@.subrange(head as int, head + len);
    let mut payload: Vec<u8> = Vec::new();
    let mut i: usize = 0;
    while i < len
        invariant
            i <= len,
            head + len <= total == input@.len(),
            is_masked ==> head >= 4,
            body == input@.subrange(head as int, head + len),
            payload@.len() == i,
            forall|j: int|
                0 <= j < i ==> #[trigger] payload@[j] == if is_masked {
                    body[j] ^ input@[head - 4 + j % 4]
                } else {
                    body[j]
                },
        decreases len - i,
    {
        let b: u8 = input[head + i];
        if is_masked {
            payload.push(b ^ input[head - 4 + i % 4]);
        } else {
            payload.push(b);
        }
        i += 1;
    }
    if is_masked {
        assert(payload@ =~= masked(body, input@.subrange(head - 4, head as int)));
    } else {
        assert(payload@ =~= body);
    }
    payload
}

/// Reads one frame from the front of `input`. The bytes that it still misses are asked for part
/// by part, and a payload above `limit` is refused before any of it is read.
pub fn decode_frame(input: &[u8], limit: u64) -> (r: Decoded)
    ensures
        r@ == decode(input@, limit as int),
{
    let have: usize = input.len();
    if have < 2 {
        return Decoded::More(2 - have as u64);
    }
    let second: u8 = input[1];
    let ext: usize = if second % 128 == 126 {
        4
    } else if second % 128 == 127 {
        10
    } else {
        2
    };
    if have < ext {
        return Decoded::More((ext - have) as u64);
    }
    let len: u64 = read_announced(input);
    if len > limit {
        return Decoded::TooLong;
    }
    let is_masked: bool = second >= 128;
    let head: usize = if is_masked {
        ext + 4
    } else {
        ext
    };
    if have < head {
        return Decoded::More((head - have) as u64);
    }
    let rest: u64 = (have - head) as u64;
    if rest < len {
        return Decoded::More(len - rest);
    }
    let payload = read_payload(input, head, len as usize, is_masked);
    Decoded::Whole { opcode: input[0] % 16, payload, consumed: head + len as usize }
}

// ---------------------------------------------------------------------------
// Laws

proof fn lemma_be64_round_trip(x: u64)
    ensures
        from_be64(sha1::be64(x)) == x,
{
    assert(x == (((x >> 56) as u8 as u64) << 56) | (((x >> 48) as u8 as u64) << 48) | (((x
        >> 40) as u8 as u64) << 40) | (((x >> 32) as u8 as u64) << 32) | (((x
        >> 24) as u8 as u64) << 24) | (((x >> 16) as u8 as u64) << 16) | (((x
        >> 8) as u8 as u64) << 8) | (x as u8 as u64)) by (bit_vector);
}

/// The length that a header announces is the one that was written into it, whatever follows.
proof fn lemma_length_round_trip(first: u8, is_masked: bool, len: nat, rest: Seq<u8>)
    requires
        len <= u64::MAX,
    ensures
        ({
            let s = seq![first] + length_field(is_masked, len) + rest;
            &&& s[0] == first
            &&& (s[1] >= 128) == is_masked
            &&& 1 + length_field(is_masked, len).len() == 2 + extension(s[1])
            &&& announced(s) == len
        }),
{
    let f = length_field(is_masked, len);
    let s = seq![first] + f + rest;
    assert(forall|i: int| 0 <= i < f.len() ==> s[i + 1] == f[i]);
    assert(s[1] == f[0]);
    if 126 <= len < 65536 {
        assert(s[2] == f[1] && s[3] == f[2]);
    } else if len >= 65536 {
        lemma_be64_round_trip(len as u64);
        let b = sha1::be64(len as u64);
        assert(forall|i: int| 0 <= i < 8 ==> f[i + 1] == b[i]);
        assert(forall|i: int| 0 <= i < 8 ==> #[trigger] s.skip(2)[i] == b[i]) by {
            assert forall|i: int| 0 <= i < 8 implies #[trigger] s.skip(2)[i] == b[i] by {
                assert(s.skip(2)[i] == s[i + 2]);
                assert(s[i + 2] == f[i + 1]);
            }
        }
        assert(from_be64(s.skip(2)) == from_be64(b));
    }
}

/// Laying the mask over twice gives the payload back.
pub proof fn mask_is_an_involution(payload: Seq<u8>, mask: Seq<u8>)
    ensures
        masked(masked(payload, mask), mask) == payload,
{
    assert forall|i: int| 0 <= i < payload.len() implies masked(masked(payload, mask), mask)[i]
        == payload[i] by {
        let b = payload[i];
        let m = mask[i % 4];
        assert((b ^ m) ^ m == b) by (bit_vector);
    }
    assert(masked(masked(payload, mask), mask) =~= payload);
}

proof fn lemma_opcode(opcode: u8)
    requires
        opcode < 16,
    ensures
        (0x80u8 | opcode) % 16 == opcode,
{
    assert(opcode < 16 ==> (0x80u8 | opcode) % 16 == opcode) by (bit_vector);
}

/// A server that reads what a client wrote gets the client's opcode and payload, and stops at the
/// end of the frame, whatever follows it.
pub proof fn masked_frames_round_trip(
    opcode: u8,
    payload: Seq<u8>,
    mask: Seq<u8>,
    rest: Seq<u8>,
    limit: int,
)
    requires
        opcode < 16,
        mask.len() == 4,
        payload.len() <= limit <= u64::MAX,
    ensures
        decode(masked_frame(opcode, payload, mask) + rest, limit) == (Decoding::Whole {
            opcode,
            payload,
            consumed: masked_frame(opcode, payload, mask).len() as int,
        }),
{
    let frame = masked_frame(opcode, payload, mask);
    let tail = mask + masked(payload, mask) + rest;
    let s = frame + rest;
    assert(s =~= seq![0x80u8 | opcode] + length_field(true, payload.len()) + tail);
    lemma_length_round_trip(0x80u8 | opcode, true, payload.len(), tail);
    lemma_opcode(opcode);
    let head = header_size(s[1]);
    assert(s.subrange(head - 4, head) =~= mask);
    assert(s.subrange(head, head + payload.len()) =~= masked(payload, mask));
    mask_is_an_involution(payload, mask);
    assert(frame.len() == head + payload.len());
}

/// A client that reads what a server wrote gets the server's opcode and payload, and stops at the
/// end of the frame, whatever follows it.
pub proof fn plain_frames_round_trip(opcode: u8, payload: Seq<u8>, rest: Seq<u8>, limit: int)
    requires
        opcode < 16,
        payload.len() <= limit <= u64::MAX,
    ensures
        decode(plain_frame(opcode, payload) + rest, limit) == (Decoding::Whole {
            opcode,
            payload,
            consumed: plain_frame(opcode, payload).len() as int,
        }),
{
    let frame = plain_frame(opcode, payload);
    let tail = payload + rest;
    let s = frame + rest;
    assert(s =~= seq![0x80u8 | opcode] + length_field(false, payload.len()) + tail);
    lemma_length_round_trip(0x80u8 | opcode, false, payload.len(), tail);
    lemma_opcode(opcode);
    let head = header_size(s[1]);
    assert(s.subrange(head, head + payload.len()) =~= payload);
    assert(frame.len() == head + payload.len());
}

/// A frame is made of the bytes that it took and no others: what follows them changes nothing.
pub proof fn decoding_looks_no_further(input: Seq<u8>, rest: Seq<u8>, limit: int)
    requires
        decode(input, limit) is Whole,
    ensures
        decode(input + rest, limit) == decode(input, limit),
{
    let s = input + rest;
    assert(s[0] == input[0] && s[1] == input[1]);
    let ext = 2 + extension(input[1]);
    assert(forall|i: int| 0 <= i < ext ==> s[i] == input[i]);
    if input[1] % 128 == 127 {
        assert forall|i: int| 0 <= i < 8 implies #[trigger] s.skip(2)[i] == input.skip(2)[i] by {
            assert(s[i + 2] == input[i + 2]);
        }
        assert(from_be64(s.skip(2)) == from_be64(input.skip(2)));
    }
    assert(announced(s) == announced(input));
    let head = header_size(input[1]);
    let end = head + announced(input);
    assert(s.subrange(head, end) =~= input.subrange(head, end));
    if input[1] >= 128 {
        assert(s.subrange(head - 4, head) =~= input.subrange(head - 4, head));
    }
}

/// A payload whose announced length is above the limit is refused on the length bytes alone: the
/// answer does not wait for the mask or the payload.
pub proof fn oversized_frames_are_refused_early(input: Seq<u8>, limit: int)
    requires
        input.len() >= 2,
        input.len() >= 2 + extension(input[1]),
        announced(input) > limit,
    ensures
        decode(input, limit) == Decoding::TooLong,
{
}

/// Reading as many bytes as are asked for, part by part, never goes beyond the end of a frame: what
/// is there of it so far asks for more, and for no more than is still to come.
pub proof fn reading_never_overshoots(input: Seq<u8>, limit: int, k: int)
    requires
        decode(input, limit) is Whole,
        0 <= k < decode(input, limit)->consumed,
    ensures
        decode(input.take(k), limit) matches Decoding::More(n) && 0 < n && k + n <= decode(
            input,
            limit,
        )->consumed,
{
    let s = input.take(k);
    if k >= 2 {
        let ext = 2 + extension(input[1]);
        assert(s[0] == input[0] && s[1] == input[1]);
        if k >= ext {
            if input[1] % 128 == 127 {
                assert forall|i: int| 0 <= i < 8 implies #[trigger] s.skip(2)[i] == input.skip(
                    2,
                )[i] by {
                    assert(s[i + 2] == input[i + 2]);
                }
                assert(from_be64(s.skip(2)) == from_be64(input.skip(2)));
            }
            assert(announced(s) == announced(input));
        }
    }
}

/// What a frame without a mask looks like on the wire: the opcode with the bit of a last frame, the
/// length of the payload in one byte, in two behind 126, or in eight behind 127, each most
/// significant byte first, and then every byte of the payload.
pub proof fn plain_frames_on_the_wire(opcode: u8, payload: Seq<u8>)
    requires
        opcode < 16,
        payload.len() <= u64::MAX,
    ensures
        ({
            let f = plain_frame(opcode, payload);
            let n = payload.len();
            &&& f[0] == 128 + opcode
            &&& n < 126 ==> f[1] == n && f.skip(2) == payload
            &&& 126 <= n < 65536 ==> f[1] == 126 && f[2] == n / 256 && f[3] == n % 256 && f.skip(4)
                == payload
            &&& n >= 65536 ==> f[1] == 127 && f[2] * 0x100_0000_0000_0000 + f[3]
                * 0x1_0000_0000_0000 + f[4] * 0x100_0000_0000 + f[5] * 0x1_0000_0000 + f[6]
                * 0x100_0000 + f[7] * 0x1_0000 + f[8] * 0x100 + f[9] == n && f.skip(10) == payload
        }),
{
    let f = plain_frame(opcode, payload);
    let n = payload.len();
    lemma_first_byte(opcode);
    if n < 126 {
        assert(f.skip(2) =~= payload);
    } else if n < 65536 {
        assert(f.skip(4) =~= payload);
    } else {
        sha1::bytes_are_digits(0, n as u64);
        let b = sha1::be64(n as u64);
        assert(f[2] == b[0] && f[3] == b[1] && f[4] == b[2] && f[5] == b[3] && f[6] == b[4] && f[7]
            == b[5] && f[8] == b[6] && f[9] == b[7]);
        assert(f.skip(10) =~= payload);
    }
}

/// What a masked frame looks like on the wire: as one without a mask, but that the byte of the
/// length has its top bit set, the mask comes behind the length, and every byte of the payload has
/// the next of the four bytes of the mask laid over it.
pub proof fn masked_frames_on_the_wire(opcode: u8, payload: Seq<u8>, mask: Seq<u8>)
    requires
        opcode < 16,
        mask.len() == 4,
        payload.len() <= u64::MAX,
    ensures
        ({
            let f = masked_frame(opcode, payload, mask);
            let n = payload.len();
            let h = if n < 126 {
                2int
            } else if n < 65536 {
                4
            } else {
                10
            };
            &&& f.len() == h + 4 + n
            &&& f[0] == 128 + opcode
            &&& n < 126 ==> f[1] == 128 + n
            &&& 126 <= n < 65536 ==> f[1] == 254 && f[2] == n / 256 && f[3] == n % 256
            &&& n >= 65536 ==> f[1] == 255 && f[2] * 0x100_0000_0000_0000 + f[3]
                * 0x1_0000_0000_0000 + f[4] * 0x100_0000_0000 + f[5] * 0x1_0000_0000 + f[6]
                * 0x100_0000 + f[7] * 0x1_0000 + f[8] * 0x100 + f[9] == n
            &&& f.subrange(h, h + 4) == mask
            &&& forall|i: int|
                0 <= i < n ==> f[h + 4 + i] == (#[trigger] payload[i]) ^ mask[i % 4]
        }),
{
    let f = masked_frame(opcode, payload, mask);
    let n = payload.len();
    lemma_first_byte(opcode);
    if n < 126 {
        assert(f.subrange(2, 6) =~= mask);
    } else if n < 65536 {
        assert(f.subrange(4, 8) =~= mask);
    } else {
        sha1::bytes_are_digits(0, n as u64);
        let b = sha1::be64(n as u64);
        assert(f[2] == b[0] && f[3] == b[1] && f[4] == b[2] && f[5] == b[3] && f[6] == b[4] && f[7]
            == b[5] && f[8] == b[6] && f[9] == b[7]);
        assert(f.subrange(10, 14) =~= mask);
    }
}

proof fn lemma_first_byte(opcode: u8)
    requires
        opcode < 16,
    ensures
        (0x80u8 | opcode) == 128 + opcode,
{
    assert(opcode < 16 ==> (0x80u8 | opcode) == 128 + opcode) by (bit_vector);
}

/// The number that the length bytes of a header write: none where the second byte holds the length
/// itself, two, or eight, most significant first.
pub open spec fn written_length(second: u8, ext: Seq<u8>) -> int {
    if ext.len() == 2 {
        ext[0] * 256 + ext[1]
    } else if ext.len() == 8 {
        ext[0] * 0x100_0000_0000_0000 + ext[1] * 0x1_0000_0000_0000 + ext[2] * 0x100_0000_0000
            + ext[3] * 0x1_0000_0000 + ext[4] * 0x100_0000 + ext[5] * 0x1_0000 + ext[6] * 0x100
            + ext[7]
    } else {
        (second % 128) as int
    }
}

proof fn lemma_written_length(first: u8, second: u8, ext: Seq<u8>, tail: Seq<u8>)
    requires
        ext.len() == (if second % 128 == 126 {
            2nat
        } else if second % 128 == 127 {
            8
        } else {
            0
        }),
    ensures
        announced(seq![first, second] + ext + tail) == written_length(second, ext),
{
    let s = seq![first, second] + ext + tail;
    if second % 128 == 127 {
        let t = s.skip(2);
        assert(t[0] == ext[0] && t[1] == ext[1] && t[2] == ext[2] && t[3] == ext[3] && t[4]
            == ext[4] && t[5] == ext[5] && t[6] == ext[6] && t[7] == ext[7]);
        let a = ext[0] as u64;
        let b = ext[1] as u64;
        let c = ext[2] as u64;
        let d = ext[3] as u64;
        let e = ext[4] as u64;
        let f = ext[5] as u64;
        let g = ext[6] as u64;
        let h = ext[7] as u64;
        assert(((a << 56) | (b << 48) | (c << 40) | (d << 32) | (e << 24) | (f << 16) | (g << 8)
            | h) == a * 0x100_0000_0000_0000 + b * 0x1_0000_0000_0000 + c * 0x100_0000_0000 + d
            * 0x1_0000_0000 + e * 0x100_0000 + f * 0x1_0000 + g * 0x100 + h) by (bit_vector)
            requires
                a < 256,
                b < 256,
                c < 256,
                d < 256,
                e < 256,
                f < 256,
                g < 256,
                h < 256,
        ;
    } else if second % 128 == 126 {
        assert(s[2] == ext[0] && s[3] == ext[1]);
    }
}

/// What is read off the wire, whoever wrote it: the opcode in the low bits of the first byte, and
/// exactly as many bytes of payload as the length bytes write, with the mask taken off where the
/// top bit of the second byte says that there is one. Whatever follows is left. Where the length
/// bytes write more than the limit, they alone decide.
pub proof fn frames_are_read_off_the_wire(
    first: u8,
    second: u8,
    ext: Seq<u8>,
    mask: Seq<u8>,
    body: Seq<u8>,
    rest: Seq<u8>,
    limit: int,
)
    requires
        ext.len() == (if second % 128 == 126 {
            2nat
        } else if second % 128 == 127 {
            8
        } else {
            0
        }),
        mask.len() == (if second >= 128 {
            4nat
        } else {
            0
        }),
    ensures
        written_length(second, ext) > limit ==> decode(seq![first, second] + ext + rest, limit)
            == Decoding::TooLong,
        body.len() == written_length(second, ext) && body.len() <= limit ==> (decode(
            seq![first, second] + ext + mask + body + rest,
            limit,
        ) matches Decoding::Whole { opcode, payload, consumed } && {
            &&& opcode == first % 16
            &&& consumed == 2 + ext.len() + mask.len() + body.len()
            &&& payload.len() == body.len()
            &&& forall|i: int|
                0 <= i < body.len() ==> #[trigger] payload[i] == if second >= 128 {
                    body[i] ^ mask[i % 4]
                } else {
                    body[i]
                }
        }),
{
    lemma_written_length(first, second, ext, rest);
    let s = seq![first, second] + ext + mask + body + rest;
    assert(s =~= seq![first, second] + ext + (mask + body + rest));
    lemma_written_length(first, second, ext, mask + body + rest);
    if body.len() == written_length(second, ext) && body.len() <= limit {
        let head = header_size(second);
        assert(s.subrange(head, head + body.len()) =~= body);
        if second >= 128 {
            assert(s.subrange(head - 4, head) =~= mask);
        }
    }
}

/// The opcodes are those of the protocol.
pub proof fn opcodes_are_the_published_ones()
    ensures
        OP_TEXT == 1 && OP_BINARY == 2 && OP_CLOSE == 8 && OP_PING == 9 && OP_PONG == 10,
{
}

/// A frame that was read is seen as what it holds: its opcode, every byte of its payload, and how
/// many bytes it took.
pub proof fn frames_are_seen_as_they_are(opcode: u8, payload: Vec<u8>, consumed: usize, n: u64)
    ensures
        (Decoded::Whole { opcode, payload, consumed })@ == (Decoding::Whole {
            opcode,
            payload: payload@,
            consumed: consumed as int,
        }),
        Decoded::More(n)@ == Decoding::More(n as int),
        Decoded::TooLong@ == Decoding::TooLong,
{
}

/// As long as the length bytes of a header are not there, nothing is decided: more is asked for, and
/// no more than the rest of them.
pub proof fn lengths_are_waited_for(input: Seq<u8>, limit: int)
    ensures
        input.len() < 2 ==> (decode(input, limit) matches Decoding::More(n) && 0 < n <= 2
            - input.len()),
        2 <= input.len() < 4 && input[1] % 128 == 126 ==> (decode(
            input,
            limit,
        ) matches Decoding::More(n) && 0 < n <= 4 - input.len()),
        2 <= input.len() < 10 && input[1] % 128 == 127 ==> (decode(
            input,
            limit,
        ) matches Decoding::More(n) && 0 < n <= 10 - input.len()),
{
}

} // verus!
