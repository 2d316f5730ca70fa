//! Text as a sequence of characters: trimming, splitting, case folding and decimal numbers.
use vstd::prelude::*;
use vstd::slice::slice_subrange;
use vstd::utf8;

verus! {

/// `String::push` of std: appends one character.
pub assume_specification[ String::push ](s: &mut String, ch: char)
    ensures
        final(s)@ == old(s)@.push(ch),
;

/// The text that `String::from_utf8_lossy` of std makes of bytes that are not valid UTF-8.
pub uninterp spec fn replaced(bytes: Seq<u8>) -> Seq<char>;

/// Wraps `String::from_utf8_lossy` of std: bytes that are valid UTF-8 are decoded as they are; what
/// the text of others is, with its replacement characters, is left to the name.
#[verifier::external_body]
pub(crate) fn from_utf8_lossy(bytes: &[u8]) -> (r: String)
    ensures
        utf8::valid_utf8(bytes@) ==> r@ == utf8::decode_utf8(bytes@),
        !utf8::valid_utf8(bytes@) ==> r@ == replaced(bytes@),
{
    String::from_utf8_lossy(bytes).into_owned()
}

/// The text of bytes: their decoding where they are valid UTF-8, with replacement characters where
/// they are not.
pub open spec fn utf8_lossy(bytes: Seq<u8>) -> Seq<char> {
    if utf8::valid_utf8(bytes) {
        utf8::decode_utf8(bytes)
    } else {
        replaced(bytes)
    }
}

/// A text comes back from its bytes.
pub proof fn lemma_lossless(s: Seq<char>)
    ensures
        utf8_lossy(utf8::encode_utf8(s)) == s,
{
    utf8::encode_utf8_valid_utf8(s);
    utf8::encode_utf8_decode_utf8(s);
}

// ---------------------------------------------------------------------------
// Conversions

/// The characters of a string.
pub fn chars_of(s: &str) -> (r: Vec<char>)
    ensures
        r@ == s@,
{
    let mut r: Vec<char> = Vec::new();
    for c in iter: s.chars()
        invariant
            iter.seq() == s@,
            r@ == s@.take(iter.index() as int),
    {
        r.push(c);
    }
    assert(s@.take(s@.len() as int) == s@);
    r
}

/// The string that holds the characters of `s`.
pub fn string_of(s: &[char]) -> (r: String)
    ensures
        r@ == s@,
{
    let mut r = String::new();
    let mut i: usize = 0;
    while i < s.len()
        invariant
            i <= s@.len(),
            r@ == s@.take(i as int),
        decreases s@.len() - i,
    {
        r.push(s[i]);
        i += 1;
        assert(s@.take(i as int) == s@.take(i - 1).push(s@[i - 1]));
    }
    assert(s@.take(i as int) == s@);
    r
}

/// Each byte read as the character of the same number (Latin-1).
pub open spec fn latin1(bytes: Seq<u8>) -> Seq<char> {
    bytes.map_values(|b: u8| b as char)
}

/// Reads each byte as the character of the same number.
pub fn latin1_chars(bytes: &[u8]) -> (r: Vec<char>)
    ensures
        r@ == latin1(bytes@),
{
    let mut r: Vec<char> = Vec::new();
    let mut i: usize = 0;
    while i < bytes.len()
        invariant
            i <= bytes@.len(),
            r@ == latin1(bytes@.take(i as int)),
        decreases bytes@.len() - i,
    {
        r.push(bytes[i] as char);
        i += 1;
        assert(latin1(bytes@.take(i as int)) == latin1(bytes@.take(i - 1)).push(
            bytes@[i - 1] as char,
        ));
    }
    assert(bytes@.take(i as int) == bytes@);
    r
}

/// The UTF-8 of two texts in a row is the UTF-8 of the one, then that of the other.
pub proof fn lemma_encode_concat(a: Seq<char>, b: Seq<char>)
    ensures
        utf8::encode_utf8(a + b) == utf8::encode_utf8(a) + utf8::encode_utf8(b),
    decreases a.len(),
{
    if a.len() == 0 {
        assert(a + b =~= b);
        assert(utf8::encode_utf8(a) + utf8::encode_utf8(b) =~= utf8::encode_utf8(b));
    } else {
        lemma_encode_concat(a.drop_first(), b);
        assert((a + b).drop_first() =~= a.drop_first() + b);
        assert(utf8::encode_utf8(a + b) =~= utf8::encode_utf8(a) + utf8::encode_utf8(b));
    }
}

/// An ASCII text comes back from its bytes, one character each.
pub proof fn lemma_latin1_ascii(s: Seq<char>)
    requires
        utf8::is_ascii_chars(s),
    ensures
        latin1(utf8::encode_utf8(s)) == s,
{
    utf8::is_ascii_chars_encode_utf8(s);
    assert(latin1(utf8::encode_utf8(s)) =~= s);
}

/// A text whose bytes are all ASCII is ASCII.
pub proof fn lemma_ascii_bytes(s: Seq<char>)
    requires
        forall|i: int|
            0 <= i < utf8::encode_utf8(s).len() ==> #[trigger] utf8::encode_utf8(s)[i] < 128,
    ensures
        utf8::is_ascii_chars(s),
    decreases s.len(),
{
    if s.len() > 0 {
        let c = s[0] as u32;
        utf8::char_is_scalar(s[0]);
        utf8::char_u32_cast(s[0], c);
        let first = utf8::encode_scalar(c);
        let rest = utf8::encode_utf8(s.drop_first());
        let all = utf8::encode_utf8(s);
        assert(all == first + rest);
        assert(all[0] == first[0]);
        if !utf8::has_width_1_encoding(c) {
            assert(utf8::leading_byte_width_2(c) >= 128u8) by (bit_vector);
            assert(utf8::leading_byte_width_3(c) >= 128u8) by (bit_vector);
            assert(utf8::leading_byte_width_4(c) >= 128u8) by (bit_vector);
        }
        assert forall|i: int| 0 <= i < rest.len() implies #[trigger] rest[i] < 128 by {
            assert(all[first.len() + i] == rest[i]);
        }
        lemma_ascii_bytes(s.drop_first());
        assert forall|i: int| 0 <= i < s.len() implies '\0' <= #[trigger] s[i] <= '\u{7f}' by {
            if i > 0 {
                assert(s[i] == s.drop_first()[i - 1]);
            }
        }
    }
}

/// Looking at each byte as a character of its own keeps what comes before apart from what comes
/// after.
pub proof fn lemma_latin1_concat(a: Seq<u8>, b: Seq<u8>)
    ensures
        latin1(a + b) == latin1(a) + latin1(b),
{
    assert(latin1(a + b) =~= latin1(a) + latin1(b));
}

/// What is seen of two texts in a row is what is seen of the one, then of the other.
pub proof fn lemma_seen_concat(a: Seq<char>, b: Seq<char>)
    ensures
        latin1(utf8::encode_utf8(a + b)) == latin1(utf8::encode_utf8(a)) + latin1(
            utf8::encode_utf8(b),
        ),
{
    lemma_encode_concat(a, b);
    lemma_latin1_concat(utf8::encode_utf8(a), utf8::encode_utf8(b));
}

/// Whether `s` holds no carriage return.
pub open spec fn on_one_line(s: Seq<char>) -> bool {
    forall|i: int| 0 <= i < s.len() ==> s[i] != '\r'
}

/// A carriage return comes out of the UTF-8 of a text only where the text holds one.
pub proof fn lemma_bytes_on_one_line(s: Seq<char>)
    requires
        on_one_line(s),
    ensures
        on_one_line(latin1(utf8::encode_utf8(s))),
    decreases s.len(),
{
    if s.len() > 0 {
        let c = s[0] as u32;
        utf8::char_is_scalar(s[0]);
        utf8::char_u32_cast(s[0], c);
        assert(c != 13);
        lemma_bytes_on_one_line(s.drop_first());
        let first = utf8::encode_scalar(c);
        if utf8::has_width_1_encoding(c) {
            assert(utf8::leading_byte_width_1(c) != 13u8) by (bit_vector)
                requires
                    c != 13u32,
                    c <= 0x7Fu32,
            ;
        } else {
            assert(utf8::leading_byte_width_2(c) != 13u8) by (bit_vector);
            assert(utf8::leading_byte_width_3(c) != 13u8) by (bit_vector);
            assert(utf8::leading_byte_width_4(c) != 13u8) by (bit_vector);
            assert(utf8::last_continuation_byte(c) != 13u8) by (bit_vector);
            assert(utf8::second_last_continuation_byte(c) != 13u8) by (bit_vector);
            assert(utf8::third_last_continuation_byte(c) != 13u8) by (bit_vector);
        }
        assert(forall|i: int| 0 <= i < first.len() ==> first[i] != 13u8);
        lemma_latin1_concat(first, utf8::encode_utf8(s.drop_first()));
    }
}

/// Appends the bytes of `tail` to `out`.
pub(crate) fn append_bytes(out: &mut Vec<u8>, tail: &[u8])
    ensures
        final(out)@ == old(out)@ + tail@,
{
    let mut i: usize = 0;
    while i < tail.len()
        invariant
            i <= tail@.len(),
            out@ == old(out)@ + tail@.take(i as int),
        decreases tail@.len() - i,
    {
        out.push(tail[i]);
        i += 1;
        assert(tail@.take(i as int) == tail@.take(i - 1).push(tail@[i - 1]));
    }
    assert(tail@.take(i as int) == tail@);
}

/// Whether two slices hold the same characters.
pub(crate) fn same_chars(a: &[char], b: &[char]) -> (r: bool)
    ensures
        r == (a@ == b@),
{
    if a.len() != b.len() {
        return false;
    }
    let mut i: usize = 0;
    while i < a.len()
        invariant
            i <= a@.len(),
            a@.len() == b@.len(),
            forall|j: int| 0 <= j < i ==> a@[j] == b@[j],
        decreases a@.len() - i,
    {
        if a[i] != b[i] {
            return false;
        }
        i += 1;
    }
    assert(a@ =~= b@);
    true
}

// ---------------------------------------------------------------------------
// White space

/// The characters with the Unicode property White_Space.
pub open spec fn is_space(c: char) -> bool {
    let n = c as u32;
    ||| 0x9 <= n <= 0xd
    ||| n == 0x20
    ||| n == 0x85
    ||| n == 0xa0
    ||| n == 0x1680
    ||| 0x2000 <= n <= 0x200a
    ||| n == 0x2028
    ||| n == 0x2029
    ||| n == 0x202f
    ||| n == 0x205f
    ||| n == 0x3000
}

/// Whether `c` is white space.
pub fn is_space_char(c: char) -> (r: bool)
    ensures
        r == is_space(c),
{
    let n: u32 = c as u32;
    (0x9 <= n && n <= 0xd) || n == 0x20 || n == 0x85 || n == 0xa0 || n == 0x1680 || (0x2000 <= n
        && n <= 0x200a) || n == 0x2028 || n == 0x2029 || n == 0x202f || n == 0x205f || n == 0x3000
}

/// `s` without its leading white space.
pub open spec fn trim_start(s: Seq<char>) -> Seq<char>
    decreases s.len(),
{
    if s.len() > 0 && is_space(s[0]) {
        trim_start(s.skip(1))
    } else {
        s
    }
}

/// `s` without its trailing white space.
pub open spec fn trim_end(s: Seq<char>) -> Seq<char>
    decreases s.len(),
{
    if s.len() > 0 && is_space(s.last()) {
        trim_end(s.drop_last())
    } else {
        s
    }
}

/// `s` without white space at either end.
pub open spec fn trim(s: Seq<char>) -> Seq<char> {
    trim_end(trim_start(s))
}

/// Trimming takes the white space around a text, and nothing of a text that neither starts nor ends
/// in any.
pub proof fn lemma_trim_between(before: Seq<char>, s: Seq<char>, behind: Seq<char>)
    requires
        forall|i: int| 0 <= i < before.len() ==> is_space(#[trigger] before[i]),
        forall|i: int| 0 <= i < behind.len() ==> is_space(#[trigger] behind[i]),
        s.len() > 0,
        !is_space(s[0]),
        !is_space(s.last()),
    ensures
        trim(before + s + behind) == s,
    decreases before.len() + behind.len(),
{
    let all = before + s + behind;
    if before.len() > 0 {
        lemma_trim_between(before.skip(1), s, behind);
        assert(all[0] == before[0]);
        assert(all.skip(1) =~= before.skip(1) + s + behind);
    } else if behind.len() > 0 {
        lemma_trim_between(before, s, behind.drop_last());
        assert(all[0] == s[0]);
        assert(all.last() == behind.last());
        assert(behind[behind.len() - 1] == behind.last());
        assert(all.drop_last() =~= before + s + behind.drop_last());
        assert(all.drop_last()[0] == s[0]);
    } else {
        assert(all =~= s);
    }
}

/// Cuts the white space off both ends.
pub fn trimmed(s: &[char]) -> (r: &[char])
    ensures
        r@ == trim(s@),
{
    let n: usize = s.len();
    let mut lo: usize = 0;
    assert(s@.skip(0) == s@);
    while lo < n && is_space_char(s[lo])
        invariant
            n == s@.len(),
            lo <= n,
            trim_start(s@) == trim_start(s@.skip(lo as int)),
        decreases n - lo,
    {
        assert(s@.skip(lo as int).skip(1) == s@.skip(lo + 1));
        lo += 1;
    }
    assert(trim_start(s@) == s@.skip(lo as int));
    let mut hi: usize = n;
    assert(s@.subrange(lo as int, hi as int) == s@.skip(lo as int));
    while hi > lo && is_space_char(s[hi - 1])
        invariant
            n == s@.len(),
            lo <= hi <= n,
            trim_start(s@) == s@.skip(lo as int),
            trim(s@) == trim_end(s@.subrange(lo as int, hi as int)),
        decreases hi,
    {
        assert(s@.subrange(lo as int, hi as int).drop_last() == s@.subrange(lo as int, hi - 1));
        hi -= 1;
    }
    slice_subrange(s, lo, hi)
}

// ---------------------------------------------------------------------------
// Searching and splitting

/// The position of the first `c` in `s`, or `s.len()` where there is none.
pub open spec fn find(s: Seq<char>, c: char) -> int
    decreases s.len(),
{
    if s.len() == 0 {
        0
    } else if s[0] == c {
        0
    } else {
        1 + find(s.skip(1), c)
    }
}

/// What `find` means: nothing before the position is `c`, and `c` stands there unless `s` holds
/// none.
pub proof fn lemma_find(s: Seq<char>, c: char)
    ensures
        0 <= find(s, c) <= s.len(),
        find(s, c) < s.len() ==> s[find(s, c)] == c,
        forall|j: int| 0 <= j < find(s, c) ==> s[j] != c,
    decreases s.len(),
{
    if s.len() > 0 && s[0] != c {
        lemma_find(s.skip(1), c);
        assert forall|j: int| 0 <= j < find(s, c) implies s[j] != c by {
            if j > 0 {
                assert(s[j] == s.skip(1)[j - 1]);
            }
        }
    }
}

/// A position with the properties of the first `c` is the one that `find` gives.
pub proof fn lemma_find_unique(s: Seq<char>, c: char, i: int)
    requires
        0 <= i <= s.len(),
        i < s.len() ==> s[i] == c,
        forall|j: int| 0 <= j < i ==> s[j] != c,
    ensures
        find(s, c) == i,
{
    lemma_find(s, c);
    if find(s, c) < i {
        assert(s[find(s, c)] != c);
    } else if i < find(s, c) {
        assert(s[i] != c);
    }
}

/// The position of the first `c`, or the length where there is none.
pub fn find_char(s: &[char], c: char) -> (r: usize)
    ensures
        r == find(s@, c),
        r <= s@.len(),
{
    let mut i: usize = 0;
    while i < s.len() && s[i] != c
        invariant
            i <= s@.len(),
            forall|j: int| 0 <= j < i ==> s@[j] != c,
        decreases s@.len() - i,
    {
        i += 1;
    }
    proof {
        lemma_find_unique(s@, c, i as int);
    }
    i
}

/// The pieces of `s` between the separators `c`; one more piece than separators.
pub open spec fn split(s: Seq<char>, c: char) -> Seq<Seq<char>>
    decreases s.len(),
{
    let i = find(s, c);
    if 0 <= i < s.len() {
        seq![s.take(i)] + split(s.skip(i + 1), c)
    } else {
        seq![s]
    }
}

/// The parts of `s` before and after its first `c`.
pub open spec fn split_once(s: Seq<char>, c: char) -> Option<(Seq<char>, Seq<char>)> {
    let i = find(s, c);
    if i < s.len() {
        Some((s.take(i), s.skip(i + 1)))
    } else {
        None
    }
}

/// Cuts `s` at its first `c`.
pub fn cut_once(s: &[char], c: char) -> (r: Option<(&[char], &[char])>)
    ensures
        match r {
            Some((a, b)) => split_once(s@, c) == Some((a@, b@)),
            None => split_once(s@, c) is None,
        },
{
    let i: usize = find_char(s, c);
    if i < s.len() {
        let a = slice_subrange(s, 0, i);
        let b = slice_subrange(s, i + 1, s.len());
        assert(a@ == s@.take(i as int));
        assert(b@ == s@.skip(i + 1));
        Some((a, b))
    } else {
        None
    }
}

/// The pieces of two texts with a separator between them are the pieces of the one, then those of
/// the other.
pub proof fn lemma_split_concat(a: Seq<char>, c: char, b: Seq<char>)
    ensures
        split(a + seq![c] + b, c) == split(a, c) + split(b, c),
    decreases a.len(),
{
    let s = a + seq![c] + b;
    let i = find(a, c);
    lemma_find(a, c);
    assert(forall|j: int| 0 <= j < a.len() ==> s[j] == a[j]);
    assert(s[a.len() as int] == c);
    lemma_find_unique(s, c, i);
    if i < a.len() {
        lemma_split_concat(a.skip(i + 1), c, b);
        assert(s.skip(i + 1) =~= a.skip(i + 1) + seq![c] + b);
        assert(s.take(i) =~= a.take(i));
        assert(split(s, c) =~= split(a, c) + split(b, c));
    } else {
        assert(s.skip(i + 1) =~= b);
        assert(s.take(i) =~= a);
        assert(split(s, c) =~= split(a, c) + split(b, c));
    }
}

/// A text without a separator is one piece.
pub proof fn lemma_one_piece(s: Seq<char>, c: char)
    requires
        forall|i: int| 0 <= i < s.len() ==> s[i] != c,
    ensures
        split(s, c) == seq![s],
{
    lemma_find_unique(s, c, s.len() as int);
}

/// The position of the last `c` in `s`, or -1 where there is none.
pub open spec fn find_last(s: Seq<char>, c: char) -> int
    decreases s.len(),
{
    if s.len() == 0 {
        -1
    } else if s.last() == c {
        s.len() - 1
    } else {
        find_last(s.drop_last(), c)
    }
}

/// Where `c` stands and none follows it, it is the last.
pub proof fn lemma_find_last(front: Seq<char>, c: char, back: Seq<char>)
    requires
        forall|i: int| 0 <= i < back.len() ==> back[i] != c,
    ensures
        find_last(front + seq![c] + back, c) == front.len(),
    decreases back.len(),
{
    let all = front + seq![c] + back;
    if back.len() > 0 {
        assert(all.last() == back[back.len() - 1]);
        assert(all.drop_last() =~= front + seq![c] + back.drop_last());
        lemma_find_last(front, c, back.drop_last());
    } else {
        assert(all.last() == c);
    }
}

/// The parts of `s` before and after its last `c`.
pub open spec fn split_last(s: Seq<char>, c: char) -> Option<(Seq<char>, Seq<char>)> {
    let i = find_last(s, c);
    if 0 <= i {
        Some((s.take(i), s.skip(i + 1)))
    } else {
        None
    }
}

/// Cuts `s` at its last `c`.
pub fn cut_last(s: &[char], c: char) -> (r: Option<(&[char], &[char])>)
    ensures
        match r {
            Some((a, b)) => split_last(s@, c) == Some((a@, b@)),
            None => split_last(s@, c) is None,
        },
{
    let mut i: usize = s.len();
    assert(s@.take(i as int) =~= s@);
    while i > 0
        invariant
            i <= s@.len(),
            find_last(s@, c) == find_last(s@.take(i as int), c),
        decreases i,
    {
        let ghost t = s@.take(i as int);
        assert(t.drop_last() =~= s@.take(i - 1));
        if s[i - 1] == c {
            let a = slice_subrange(s, 0, i - 1);
            let b = slice_subrange(s, i, s.len());
            assert(a@ =~= s@.take(i - 1));
            assert(b@ =~= s@.skip(i as int));
            return Some((a, b));
        }
        i -= 1;
    }
    None
}

/// The position of the first carriage return that a line feed follows, or `s.len()`.
pub open spec fn find_crlf(s: Seq<char>) -> int
    decreases s.len(),
{
    if s.len() < 2 {
        s.len() as int
    } else if s[0] == '\r' && s[1] == '\n' {
        0
    } else {
        1 + find_crlf(s.skip(1))
    }
}

/// What `find_crlf` means.
pub proof fn lemma_find_crlf(s: Seq<char>)
    ensures
        0 <= find_crlf(s) <= s.len(),
        find_crlf(s) < s.len() ==> find_crlf(s) + 2 <= s.len() && s[find_crlf(s)] == '\r' && s[
        find_crlf(s) + 1] == '\n',
        forall|j: int|
            0 <= j < find_crlf(s) && j + 1 < s.len() ==> !(#[trigger] s[j] == '\r' && s[j + 1]
                == '\n'),
    decreases s.len(),
{
    if s.len() >= 2 && !(s[0] == '\r' && s[1] == '\n') {
        lemma_find_crlf(s.skip(1));
        assert forall|j: int| 0 <= j < find_crlf(s) && j + 1 < s.len() implies !(#[trigger] s[j]
            == '\r' && s[j + 1] == '\n') by {
            if j > 0 {
                assert(s[j] == s.skip(1)[j - 1]);
                assert(s[j + 1] == s.skip(1)[j]);
            }
        }
    }
}

/// A position with the properties of the first line end is the one that `find_crlf` gives.
pub proof fn lemma_find_crlf_unique(s: Seq<char>, i: int)
    requires
        0 <= i <= s.len(),
        i < s.len() ==> i + 2 <= s.len() && s[i] == '\r' && s[i + 1] == '\n',
        forall|j: int|
            0 <= j < i && j + 1 < s.len() ==> !(#[trigger] s[j] == '\r' && s[j + 1] == '\n'),
    ensures
        find_crlf(s) == i,
{
    lemma_find_crlf(s);
    if find_crlf(s) < i {
        assert(s[find_crlf(s)] == '\r');
    } else if i < find_crlf(s) {
        assert(s[i] == '\r');
    }
}

/// The lines of `s`: the pieces between its line ends (a carriage return and a line feed).
pub open spec fn lines(s: Seq<char>) -> Seq<Seq<char>>
    decreases s.len(),
{
    let i = find_crlf(s);
    if 0 <= i && i + 2 <= s.len() {
        seq![s.take(i)] + lines(s.skip(i + 2))
    } else {
        seq![s]
    }
}

/// The lines of two texts with a line end between them are the lines of the one, then those of the
/// other.
pub proof fn lemma_lines_concat(a: Seq<char>, b: Seq<char>)
    ensures
        lines(a + seq!['\r', '\n'] + b) == lines(a) + lines(b),
    decreases a.len(),
{
    let s = a + seq!['\r', '\n'] + b;
    let i = find_crlf(a);
    lemma_find_crlf(a);
    assert(forall|j: int| 0 <= j < a.len() ==> s[j] == a[j]);
    assert(s[a.len() as int] == '\r');
    assert(s[a.len() as int + 1] == '\n');
    assert forall|j: int| 0 <= j < i && j + 1 < s.len() implies !(#[trigger] s[j] == '\r' && s[j
        + 1] == '\n') by {
        assert(s[j] == a[j]);
        if j + 1 < a.len() {
            assert(s[j + 1] == a[j + 1]);
        }
    }
    lemma_find_crlf_unique(s, i);
    if i < a.len() {
        lemma_lines_concat(a.skip(i + 2), b);
        assert(s.skip(i + 2) =~= a.skip(i + 2) + seq!['\r', '\n'] + b);
        assert(s.take(i) =~= a.take(i));
        assert(lines(s) =~= lines(a) + lines(b));
    } else {
        assert(s.skip(i + 2) =~= b);
        assert(s.take(i) =~= a);
        assert(lines(s) =~= lines(a) + lines(b));
    }
}

/// A text without a line end is one line.
pub proof fn lemma_one_line(s: Seq<char>)
    requires
        forall|i: int| 0 <= i < s.len() ==> s[i] != '\r',
    ensures
        lines(s) == seq![s],
{
    lemma_find_crlf_unique(s, s.len() as int);
}

/// The end of the line that starts at `from`: the position of the next line end, or the length.
pub fn line_end(s: &[char], from: usize) -> (r: usize)
    requires
        from <= s@.len(),
    ensures
        from <= r <= s@.len(),
        r - from == find_crlf(s@.skip(from as int)),
        r < s@.len() ==> r + 2 <= s@.len(),
{
    let ghost t = s@.skip(from as int);
    let mut i: usize = from;
    while s.len() - i >= 2 && !(s[i] == '\r' && s[i + 1] == '\n')
        invariant
            from <= i <= s@.len(),
            t == s@.skip(from as int),
            forall|j: int|
                0 <= j < i - from && j + 1 < t.len() ==> !(#[trigger] t[j] == '\r' && t[j + 1]
                    == '\n'),
        decreases s@.len() - i,
    {
        proof {
            assert(t[i - from] == s@[i as int]);
            assert(t[i - from + 1] == s@[i + 1]);
        }
        i += 1;
    }
    if s.len() - i < 2 {
        i = s.len();
    }
    proof {
        if i < s@.len() {
            assert(t[i - from] == s@[i as int]);
            assert(t[i - from + 1] == s@[i + 1]);
        }
        lemma_find_crlf_unique(t, i - from);
    }
    i
}

/// Whether `s` begins with `p`.
pub open spec fn starts_with(s: Seq<char>, p: Seq<char>) -> bool {
    p.len() <= s.len() && s.take(p.len() as int) == p
}

/// Whether `s` begins with `p`.
pub fn has_prefix(s: &[char], p: &[char]) -> (r: bool)
    ensures
        r == starts_with(s@, p@),
{
    if p.len() > s.len() {
        return false;
    }
    let head = slice_subrange(s, 0, p.len());
    assert(head@ == s@.take(p@.len() as int));
    same_chars(head, p)
}

/// Whether `p` stands somewhere in `s`.
pub open spec fn contains_text(s: Seq<char>, p: Seq<char>) -> bool {
    exists|i: int| 0 <= i <= s.len() && #[trigger] starts_with(s.skip(i), p)
}

/// Whether `p` stands somewhere in `s`.
pub fn has_text(s: &[char], p: &[char]) -> (r: bool)
    ensures
        r == contains_text(s@, p@),
{
    let n: usize = s.len();
    let mut i: usize = 0;
    while i <= n
        invariant
            n == s@.len(),
            i <= n + 1,
            forall|j: int| 0 <= j < i ==> !starts_with(s@.skip(j), p@),
        decreases n + 1 - i,
    {
        let rest = slice_subrange(s, i, n);
        assert(rest@ == s@.skip(i as int));
        if has_prefix(rest, p) {
            return true;
        }
        if i == n {
            return false;
        }
        i += 1;
    }
    false
}

// ---------------------------------------------------------------------------
// ASCII case

/// `c` in lower case, where it is an ASCII letter.
pub open spec fn lower(c: char) -> char {
    if 'A' <= c <= 'Z' {
        ((c as u8) + 32) as char
    } else {
        c
    }
}

/// `s` with its ASCII letters in lower case.
pub open spec fn lower_all(s: Seq<char>) -> Seq<char> {
    s.map_values(|c: char| lower(c))
}

/// `c` in lower case, where it is an ASCII letter.
pub fn lower_char(c: char) -> (r: char)
    ensures
        r == lower(c),
{
    if 'A' <= c && c <= 'Z' {
        (c as u8 + 32) as char
    } else {
        c
    }
}

/// Puts the ASCII letters in lower case.
pub fn lowered(s: &[char]) -> (r: Vec<char>)
    ensures
        r@ == lower_all(s@),
{
    let mut r: Vec<char> = Vec::new();
    let mut i: usize = 0;
    while i < s.len()
        invariant
            i <= s@.len(),
            r@ == lower_all(s@.take(i as int)),
        decreases s@.len() - i,
    {
        r.push(lower_char(s[i]));
        i += 1;
        assert(lower_all(s@.take(i as int)) == lower_all(s@.take(i - 1)).push(lower(s@[i - 1])));
    }
    assert(s@.take(i as int) == s@);
    r
}

/// Whether two texts are equal but for the case of ASCII letters.
pub open spec fn same_ignoring_case(a: Seq<char>, b: Seq<char>) -> bool {
    lower_all(a) == lower_all(b)
}

/// Whether two texts are equal but for the case of ASCII letters.
pub fn equal_ignoring_case(a: &[char], b: &[char]) -> (r: bool)
    ensures
        r == same_ignoring_case(a@, b@),
{
    let la = lowered(a);
    let lb = lowered(b);
    same_chars(la.as_slice(), lb.as_slice())
}

// ---------------------------------------------------------------------------
// Decimal numbers

/// The character of a decimal digit.
pub open spec fn digit_char(d: nat) -> char {
    (48 + d) as char
}

/// `n` in decimal, without leading zeros.
pub open spec fn decimal(n: nat) -> Seq<char>
    decreases n,
{
    if n < 10 {
        seq![digit_char(n)]
    } else {
        decimal(n / 10).push(digit_char(n % 10))
    }
}

/// Writes `n` in decimal.
pub fn decimal_chars(n: u64) -> (r: Vec<char>)
    ensures
        r@ == decimal(n as nat),
    decreases n,
{
    if n < 10 {
        let mut v: Vec<char> = Vec::new();
        v.push((48u8 + n as u8) as char);
        assert(v@ =~= seq![digit_char(n as nat)]);
        v
    } else {
        let mut v = decimal_chars(n / 10);
        v.push((48u8 + (n % 10) as u8) as char);
        v
    }
}

/// Writes `n` in decimal.
pub fn decimal_string(n: u64) -> (r: String)
    ensures
        r@ == decimal(n as nat),
{
    let v = decimal_chars(n);
    string_of(v.as_slice())
}

/// Whether every character is a decimal digit.
pub open spec fn all_digits(s: Seq<char>) -> bool {
    forall|i: int| 0 <= i < s.len() ==> '0' <= #[trigger] s[i] <= '9'
}

/// The number that decimal digits write.
pub open spec fn digits_value(s: Seq<char>) -> nat
    decreases s.len(),
{
    if s.len() == 0 {
        0
    } else {
        digits_value(s.drop_last()) * 10 + ((s.last() as u32) - 48) as nat
    }
}

/// The number that `s` writes, one plus sign allowed in front, where it is at most `max`.
pub open spec fn parse_number(s: Seq<char>, max: nat) -> Option<nat> {
    let d = if s.len() > 0 && s[0] == '+' {
        s.skip(1)
    } else {
        s
    };
    if d.len() > 0 && all_digits(d) && digits_value(d) <= max {
        Some(digits_value(d))
    } else {
        None
    }
}

/// More digits never write a smaller number.
pub proof fn lemma_digits_value_grows(s: Seq<char>, i: int)
    requires
        0 <= i <= s.len(),
    ensures
        digits_value(s.take(i)) <= digits_value(s),
    decreases s.len() - i,
{
    if i < s.len() {
        lemma_digits_value_grows(s, i + 1);
        assert(s.take(i + 1).drop_last() == s.take(i));
    } else {
        assert(s.take(i) == s);
    }
}

/// A number is written in digits, and they write the number.
pub proof fn lemma_decimal_digits(n: nat)
    ensures
        all_digits(decimal(n)),
        decimal(n).len() > 0,
        digits_value(decimal(n)) == n,
    decreases n,
{
    if n >= 10 {
        lemma_decimal_digits(n / 10);
        assert(decimal(n).drop_last() =~= decimal(n / 10));
        assert(decimal(n).last() as u32 == 48 + n % 10);
    } else {
        assert(decimal(n).drop_last() =~= Seq::<char>::empty());
        assert(digits_value(Seq::<char>::empty()) == 0);
        assert(decimal(n).last() as u32 == 48 + n);
    }
}

/// Reads the digits of `d`: their number, where they are all digits and write at most `max`.
fn read_digits(d: &[char], max: u64) -> (r: Option<u64>)
    ensures
        match r {
            Some(v) => d@.len() > 0 && all_digits(d@) && digits_value(d@) == v && v <= max,
            None => !(d@.len() > 0 && all_digits(d@) && digits_value(d@) <= max),
        },
{
    if d.len() == 0 {
        return None;
    }
    let mut v: u64 = 0;
    let mut i: usize = 0;
    while i < d.len()
        invariant
            i <= d@.len(),
            v <= max,
            all_digits(d@.take(i as int)),
            v == digits_value(d@.take(i as int)),
        decreases d@.len() - i,
    {
        let c = d[i];
        if !('0' <= c && c <= '9') {
            assert(!('0' <= d@[i as int] <= '9'));
            return None;
        }
        let k: u64 = (c as u32 - 48) as u64;
        proof {
            lemma_digits_value_grows(d@, i + 1);
            assert(d@.take(i + 1).drop_last() == d@.take(i as int));
        }
        if k > max || v > (max - k) / 10 {
            proof {
                assert(digits_value(d@.take(i + 1)) > max);
            }
            return None;
        }
        v = v * 10 + k;
        i += 1;
        assert(forall|j: int| 0 <= j < i ==> '0' <= #[trigger] d@.take(i as int)[j] <= '9') by {
            assert forall|j: int| 0 <= j < i implies '0' <= #[trigger] d@.take(i as int)[j]
                <= '9' by {
                if j < i - 1 {
                    assert(d@.take(i as int)[j] == d@.take(i - 1)[j]);
                }
            }
        }
    }
    assert(d@.take(i as int) == d@);
    Some(v)
}

/// Reads a number of at most `max` from `s`, with one plus sign allowed in front.
pub fn read_number(s: &[char], max: u64) -> (r: Option<u64>)
    ensures
        match r {
            Some(v) => parse_number(s@, max as nat) == Some(v as nat),
            None => parse_number(s@, max as nat) is None,
        },
{
    if s.len() > 0 && s[0] == '+' {
        let d = slice_subrange(s, 1, s.len());
        assert(d@ == s@.skip(1));
        read_digits(d, max)
    } else {
        read_digits(s, max)
    }
}

// ---------------------------------------------------------------------------
// Pieces

/// The texts that a list of pieces holds.
pub open spec fn texts(v: Seq<Vec<char>>) -> Seq<Seq<char>> {
    v.map_values(|x: Vec<char>| x@)
}

fn copied(s: &[char]) -> (r: Vec<char>)
    ensures
        r@ == s@,
{
    let mut r: Vec<char> = Vec::new();
    let mut i: usize = 0;
    while i < s.len()
        invariant
            i <= s@.len(),
            r@ == s@.take(i as int),
        decreases s@.len() - i,
    {
        r.push(s[i]);
        i += 1;
        assert(s@.take(i as int) == s@.take(i - 1).push(s@[i - 1]));
    }
    assert(s@.take(i as int) == s@);
    r
}

/// Splits `s` into its lines.
pub fn split_lines(s: &[char]) -> (r: Vec<Vec<char>>)
    ensures
        texts(r@) == lines(s@),
        r@.len() > 0,
{
    let n: usize = s.len();
    let mut r: Vec<Vec<char>> = Vec::new();
    let mut pos: usize = 0;
    assert(s@.skip(0) == s@);
    assert(texts(r@) + lines(s@) =~= lines(s@));
    loop
        invariant_except_break
            pos <= n == s@.len(),
            lines(s@) == texts(r@) + lines(s@.skip(pos as int)),
        ensures
            lines(s@) == texts(r@),
            r@.len() > 0,
        decreases n - pos,
    {
        let end: usize = line_end(s, pos);
        let ghost before = r@;
        let ghost rest = s@.skip(pos as int);
        let piece = copied(slice_subrange(s, pos, end));
        r.push(piece);
        assert(texts(r@) =~= texts(before).push(piece@));
        if end < n {
            assert(piece@ =~= rest.take(end - pos));
            assert(rest.skip(end - pos + 2) =~= s@.skip(end + 2));
            assert(texts(before) + lines(rest) =~= texts(r@) + lines(s@.skip(end + 2)));
            pos = end + 2;
        } else {
            assert(piece@ =~= rest);
            assert(texts(before) + lines(rest) =~= texts(r@));
            break;
        }
    }
    r
}

/// Splits `s` at each `c`.
pub fn split_at_char(s: &[char], c: char) -> (r: Vec<Vec<char>>)
    ensures
        texts(r@) == split(s@, c),
        r@.len() > 0,
{
    let n: usize = s.len();
    let mut r: Vec<Vec<char>> = Vec::new();
    let mut pos: usize = 0;
    assert(s@.skip(0) == s@);
    assert(texts(r@) + split(s@, c) =~= split(s@, c));
    loop
        invariant_except_break
            pos <= n == s@.len(),
            split(s@, c) == texts(r@) + split(s@.skip(pos as int), c),
        ensures
            split(s@, c) == texts(r@),
            r@.len() > 0,
        decreases n - pos,
    {
        let tail = slice_subrange(s, pos, n);
        let ghost rest = s@.skip(pos as int);
        assert(tail@ =~= rest);
        let i: usize = find_char(tail, c);
        let ghost before = r@;
        let piece = copied(slice_subrange(tail, 0, i));
        assert(piece@ =~= rest.take(i as int));
        r.push(piece);
        assert(texts(r@) =~= texts(before).push(piece@));
        if i < tail.len() {
            assert(rest.skip(i + 1) =~= s@.skip(pos + i + 1));
            assert(texts(before) + split(rest, c) =~= texts(r@) + split(s@.skip(pos + i + 1), c));
            pos = pos + i + 1;
        } else {
            assert(rest.take(i as int) =~= rest);
            assert(texts(before) + split(rest, c) =~= texts(r@));
            break;
        }
    }
    r
}

/// The position of the first white space, or `s.len()`.
pub open spec fn find_space(s: Seq<char>) -> int
    decreases s.len(),
{
    if s.len() == 0 || is_space(s[0]) {
        0
    } else {
        1 + find_space(s.skip(1))
    }
}

/// The words of `s`: the stretches between white space.
pub open spec fn words(s: Seq<char>) -> Seq<Seq<char>>
    decreases s.len(),
    via words_decreases
{
    let t = trim_start(s);
    if t.len() == 0 {
        Seq::empty()
    } else {
        let i = find_space(t);
        seq![t.take(i)] + words(t.skip(i))
    }
}

proof fn lemma_trim_start(s: Seq<char>)
    ensures
        trim_start(s).len() <= s.len(),
        trim_start(s).len() > 0 ==> !is_space(trim_start(s)[0]),
    decreases s.len(),
{
    if s.len() > 0 && is_space(s[0]) {
        lemma_trim_start(s.skip(1));
    }
}

proof fn lemma_find_space(s: Seq<char>)
    ensures
        0 <= find_space(s) <= s.len(),
        s.len() > 0 && !is_space(s[0]) ==> find_space(s) > 0,
    decreases s.len(),
{
    if s.len() > 0 && !is_space(s[0]) {
        lemma_find_space(s.skip(1));
    }
}

#[via_fn]
proof fn words_decreases(s: Seq<char>) {
    let t = trim_start(s);
    lemma_trim_start(s);
    if t.len() > 0 {
        lemma_find_space(t);
    }
}

/// Splits `s` into its words.
pub fn split_words(s: &[char]) -> (r: Vec<Vec<char>>)
    ensures
        texts(r@) == words(s@),
{
    let n: usize = s.len();
    let mut r: Vec<Vec<char>> = Vec::new();
    let mut pos: usize = 0;
    assert(s@.skip(0) == s@);
    assert(texts(r@) + words(s@) =~= words(s@));
    loop
        invariant
            pos <= n == s@.len(),
            words(s@) == texts(r@) + words(s@.skip(pos as int)),
        ensures
            words(s@) == texts(r@),
        decreases n - pos,
    {
        let ghost rest = s@.skip(pos as int);
        let mut lo: usize = pos;
        while lo < n && is_space_char(s[lo])
            invariant
                pos <= lo <= n == s@.len(),
                trim_start(rest) == trim_start(s@.skip(lo as int)),
            decreases n - lo,
        {
            assert(s@.skip(lo as int).skip(1) == s@.skip(lo + 1));
            lo += 1;
        }
        let ghost t = trim_start(rest);
        assert(t == s@.skip(lo as int));
        if lo == n {
            assert(texts(r@) + words(rest) =~= texts(r@));
            break;
        }
        let mut hi: usize = lo;
        assert(t.skip(0) == t);
        while hi < n && !is_space_char(s[hi])
            invariant
                lo <= hi <= n == s@.len(),
                t == s@.skip(lo as int),
                find_space(t) == (hi - lo) + find_space(t.skip(hi - lo)),
            decreases n - hi,
        {
            assert(t.skip(hi - lo).skip(1) == t.skip(hi + 1 - lo));
            assert(t.skip(hi - lo)[0] == s@[hi as int]);
            hi += 1;
        }
        proof {
            if hi < n {
                assert(t.skip(hi - lo)[0] == s@[hi as int]);
            }
            assert(find_space(t) == hi - lo);
            lemma_trim_start(rest);
            lemma_find_space(t);
        }
        let ghost before = r@;
        let piece = copied(slice_subrange(s, lo, hi));
        r.push(piece);
        assert(piece@ =~= t.take(hi - lo));
        assert(texts(r@) =~= texts(before).push(piece@));
        assert(t.skip(hi - lo) =~= s@.skip(hi as int));
        assert(texts(before) + words(rest) =~= texts(r@) + words(s@.skip(hi as int)));
        pos = hi;
    }
    r
}

// ---------------------------------------------------------------------------
// Laws

/// Each byte is a character of its own: there are as many, and each has the number of its byte.
pub proof fn bytes_are_characters(bytes: Seq<u8>)
    ensures
        latin1(bytes).len() == bytes.len(),
        forall|i: int| 0 <= i < bytes.len() ==> #[trigger] latin1(bytes)[i] as u32 == bytes[i],
{
}

/// Case is folded letter by letter: a capital of ASCII becomes the small letter, and every other
/// character stays what it is.
pub proof fn capitals_become_small(s: Seq<char>, i: int)
    requires
        0 <= i < s.len(),
    ensures
        lower_all(s).len() == s.len(),
        'A' <= s[i] <= 'Z' ==> lower_all(s)[i] as u32 - 'a' as u32 == s[i] as u32 - 'A' as u32,
        !('A' <= s[i] <= 'Z') ==> lower_all(s)[i] == s[i],
{
}

/// Two texts are equal but for the case of letters exactly where they are as long, and at each
/// place hold the same character or the two cases of one letter of ASCII.
pub proof fn only_case_is_ignored(a: Seq<char>, b: Seq<char>)
    ensures
        same_ignoring_case(a, b) <==> a.len() == b.len() && forall|i: int|
            0 <= i < a.len() ==> (#[trigger] a[i] == b[i] || ('A' <= a[i] <= 'Z' && b[i] as u32
                == a[i] as u32 + 32) || ('A' <= b[i] <= 'Z' && a[i] as u32 == b[i] as u32 + 32)),
{
    let x = lower_all(a);
    let y = lower_all(b);
    if same_ignoring_case(a, b) {
        assert(x.len() == a.len() && y.len() == b.len());
        assert forall|i: int| 0 <= i < a.len() implies (#[trigger] a[i] == b[i] || ('A' <= a[i]
            <= 'Z' && b[i] as u32 == a[i] as u32 + 32) || ('A' <= b[i] <= 'Z' && a[i] as u32
            == b[i] as u32 + 32)) by {
            assert(x[i] == y[i]);
        }
    }
    if a.len() == b.len() && forall|i: int|
        0 <= i < a.len() ==> (#[trigger] a[i] == b[i] || ('A' <= a[i] <= 'Z' && b[i] as u32
            == a[i] as u32 + 32) || ('A' <= b[i] <= 'Z' && a[i] as u32 == b[i] as u32 + 32)) {
        assert forall|i: int| 0 <= i < x.len() implies x[i] == y[i] by {
            assert(a[i] == a[i]);
        }
        assert(x =~= y);
    }
}

/// White space is what Unicode lists as such: twenty-five characters.
pub proof fn white_space_is_listed(c: char)
    ensures
        is_space(c) <==> {
            ||| c == '\t' || c == '\n' || c == '\u{b}' || c == '\u{c}' || c == '\r'
            ||| c == ' ' || c == '\u{85}' || c == '\u{a0}' || c == '\u{1680}' || c == '\u{2000}'
            ||| c == '\u{2001}' || c == '\u{2002}' || c == '\u{2003}' || c == '\u{2004}'
            ||| c == '\u{2005}' || c == '\u{2006}' || c == '\u{2007}' || c == '\u{2008}'
            ||| c == '\u{2009}' || c == '\u{200a}' || c == '\u{2028}' || c == '\u{2029}'
            ||| c == '\u{202f}' || c == '\u{205f}' || c == '\u{3000}'
        },
{
}

/// Nothing is left of a text that is all white space.
pub proof fn blank_texts_trim_to_nothing(s: Seq<char>)
    requires
        forall|i: int| 0 <= i < s.len() ==> is_space(#[trigger] s[i]),
    ensures
        trim(s).len() == 0,
        trim_start(s).len() == 0,
    decreases s.len(),
{
    if s.len() > 0 {
        assert(is_space(s[0]));
        assert forall|i: int| 0 <= i < s.skip(1).len() implies is_space(#[trigger] s.skip(1)[i]) by {
            assert(s.skip(1)[i] == s[i + 1]);
        }
        blank_texts_trim_to_nothing(s.skip(1));
    }
}

/// A text is cut at the first separator, or at the last, and nowhere where there is none: both
/// parts come out whole.
pub proof fn texts_are_cut_whole(a: Seq<char>, c: char, b: Seq<char>)
    ensures
        (forall|i: int| 0 <= i < a.len() ==> a[i] != c) ==> split_once(a + seq![c] + b, c) == Some(
            (a, b),
        ) && split_once(a, c) is None && split_last(a, c) is None,
        (forall|i: int| 0 <= i < b.len() ==> b[i] != c) ==> split_last(a + seq![c] + b, c) == Some(
            (a, b),
        ),
{
    let s = a + seq![c] + b;
    assert(s.take(a.len() as int) =~= a);
    assert(s.skip(a.len() as int + 1) =~= b);
    if forall|i: int| 0 <= i < a.len() ==> a[i] != c {
        assert(forall|i: int| 0 <= i < a.len() ==> s[i] == a[i]);
        lemma_find_unique(s, c, a.len() as int);
        lemma_find_unique(a, c, a.len() as int);
        lemma_find_none(a, c);
    }
    if forall|i: int| 0 <= i < b.len() ==> b[i] != c {
        lemma_find_last(a, c, b);
    }
}

/// There is no last `c` where there is none at all.
proof fn lemma_find_none(s: Seq<char>, c: char)
    requires
        forall|i: int| 0 <= i < s.len() ==> s[i] != c,
    ensures
        find_last(s, c) == -1,
    decreases s.len(),
{
    if s.len() > 0 {
        assert(s.last() == s[s.len() - 1]);
        lemma_find_none(s.drop_last(), c);
    }
}

/// A text begins with another exactly where it is that text and something behind it, and holds
/// another exactly where it is something, that text, and something behind it.
pub proof fn parts_are_found(s: Seq<char>, p: Seq<char>)
    ensures
        starts_with(s, p) <==> exists|b: Seq<char>| s == #[trigger] (p + b),
        contains_text(s, p) <==> exists|a: Seq<char>, b: Seq<char>| s == #[trigger] (a + p + b),
{
    if starts_with(s, p) {
        assert(s =~= p + s.skip(p.len() as int));
    }
    if exists|b: Seq<char>| s == #[trigger] (p + b) {
        let b = choose|b: Seq<char>| s == #[trigger] (p + b);
        assert(s.take(p.len() as int) =~= p);
    }
    if contains_text(s, p) {
        let i = choose|i: int| 0 <= i <= s.len() && #[trigger] starts_with(s.skip(i), p);
        assert(s.skip(i).take(p.len() as int) =~= p);
        assert(s =~= s.take(i) + p + s.skip(i + p.len()));
    }
    if exists|a: Seq<char>, b: Seq<char>| s == #[trigger] (a + p + b) {
        let (a, b) = choose|a: Seq<char>, b: Seq<char>| s == #[trigger] (a + p + b);
        assert(s.skip(a.len() as int).take(p.len() as int) =~= p);
        assert(starts_with(s.skip(a.len() as int), p));
    }
}

/// A line end is a carriage return with a line feed behind it, and nothing else: a text in which the
/// two never meet is one line.
pub proof fn only_line_ends_end_lines(s: Seq<char>)
    requires
        forall|j: int|
            0 <= j && j + 1 < s.len() ==> !(#[trigger] s[j] == '\r' && s[j + 1] == '\n'),
    ensures
        lines(s) == seq![s],
{
    lemma_find_crlf_unique(s, s.len() as int);
}

/// The words of a text are what stands between its white space, whole and in order.
pub proof fn words_stand_between_white_space(
    before: Seq<char>,
    word: Seq<char>,
    rest: Seq<char>,
)
    requires
        forall|i: int| 0 <= i < before.len() ==> is_space(#[trigger] before[i]),
        forall|i: int| 0 <= i < word.len() ==> !is_space(#[trigger] word[i]),
        word.len() > 0,
        rest.len() > 0 ==> is_space(rest[0]),
    ensures
        words(before) == Seq::<Seq<char>>::empty(),
        words(before + word + rest) == seq![word] + words(rest),
{
    let all = before + word + rest;
    blank_texts_trim_to_nothing(before);
    lemma_trim_front(before, word + rest);
    assert(all =~= before + (word + rest));
    let t = word + rest;
    assert(t[0] == word[0]);
    lemma_first_space(word, rest);
    assert(t.take(word.len() as int) =~= word);
    assert(t.skip(word.len() as int) =~= rest);
}

/// White space in front is passed over.
proof fn lemma_trim_front(before: Seq<char>, s: Seq<char>)
    requires
        forall|i: int| 0 <= i < before.len() ==> is_space(#[trigger] before[i]),
        s.len() > 0,
        !is_space(s[0]),
    ensures
        trim_start(before + s) == s,
    decreases before.len(),
{
    let all = before + s;
    if before.len() > 0 {
        assert(all[0] == before[0]);
        assert(all.skip(1) =~= before.skip(1) + s);
        lemma_trim_front(before.skip(1), s);
    } else {
        assert(all =~= s);
    }
}

/// The first white space behind a word.
proof fn lemma_first_space(word: Seq<char>, rest: Seq<char>)
    requires
        forall|i: int| 0 <= i < word.len() ==> !is_space(#[trigger] word[i]),
        rest.len() > 0 ==> is_space(rest[0]),
    ensures
        find_space(word + rest) == word.len(),
    decreases word.len(),
{
    let t = word + rest;
    if word.len() > 0 {
        assert(t[0] == word[0]);
        assert(t.skip(1) =~= word.skip(1) + rest);
        lemma_first_space(word.skip(1), rest);
    } else {
        assert(t =~= rest);
    }
}

/// A digit more makes ten times the number and the digit.
pub proof fn digits_have_their_place(s: Seq<char>, d: char)
    requires
        '0' <= d <= '9',
    ensures
        digits_value(Seq::<char>::empty()) == 0,
        digits_value(s.push(d)) == 10 * digits_value(s) + (d as int - '0' as int),
{
    assert(s.push(d).drop_last() =~= s);
}

/// A number that is written in digits is read as that number, whatever zeros stand in front, with
/// or without a plus sign, unless it is above what is allowed; and it is written without zeros in
/// front.
pub proof fn numbers_read_back(zeros: Seq<char>, n: nat, max: nat)
    requires
        forall|i: int| 0 <= i < zeros.len() ==> zeros[i] == '0',
    ensures
        ({
            let r = if n <= max {
                Some(n)
            } else {
                None
            };
            &&& parse_number(zeros + decimal(n), max) == r
            &&& parse_number(seq!['+'] + zeros + decimal(n), max) == r
        }),
        n > 0 ==> decimal(n)[0] != '0',
        n < 10 <==> decimal(n).len() == 1,
{
    let d = decimal(n);
    let s = zeros + d;
    lemma_decimal_digits(n);
    lemma_zeros_in_front(zeros, d);
    lemma_first_digit(n);
    assert(all_digits(s)) by {
        assert forall|i: int| 0 <= i < s.len() implies '0' <= #[trigger] s[i] <= '9' by {
            if i >= zeros.len() {
                assert(s[i] == d[i - zeros.len()]);
            } else {
                assert(s[i] == zeros[i]);
            }
        }
    }
    assert(s[0] != '+');
    let p = seq!['+'] + zeros + d;
    assert(p.skip(1) =~= s);
    assert(p[0] == '+');
}

/// What holds any other character is no number, and neither is nothing at all.
pub proof fn only_digits_are_numbers(s: Seq<char>, i: int, max: nat)
    requires
        0 <= i < s.len(),
        !('0' <= s[i] <= '9'),
        i > 0 || s[0] != '+' || s.len() == 1,
    ensures
        parse_number(s, max) is None,
        parse_number(Seq::<char>::empty(), max) is None,
{
    if s[0] == '+' {
        if s.len() > 1 {
            assert(s.skip(1)[i - 1] == s[i]);
        }
    }
}

/// Zeros in front add nothing.
proof fn lemma_zeros_in_front(zeros: Seq<char>, d: Seq<char>)
    requires
        forall|i: int| 0 <= i < zeros.len() ==> zeros[i] == '0',
    ensures
        digits_value(zeros + d) == digits_value(d),
    decreases zeros.len() + d.len(),
{
    let s = zeros + d;
    if d.len() > 0 {
        assert(s.drop_last() =~= zeros + d.drop_last());
        assert(s.last() == d.last());
        lemma_zeros_in_front(zeros, d.drop_last());
    } else if zeros.len() > 0 {
        assert(s.drop_last() =~= zeros.drop_last() + d);
        assert(s.last() == zeros[zeros.len() - 1]);
        lemma_zeros_in_front(zeros.drop_last(), d);
    }
}

proof fn lemma_first_digit(n: nat)
    ensures
        decimal(n).len() > 0,
        n > 0 ==> decimal(n)[0] != '0',
        n < 10 <==> decimal(n).len() == 1,
    decreases n,
{
    if n >= 10 {
        lemma_first_digit(n / 10);
        assert(decimal(n)[0] == decimal(n / 10)[0]);
    }
}

/// The texts of pieces are all that the pieces hold, in order.
pub proof fn pieces_are_seen_as_they_are(v: Seq<Vec<char>>, i: int)
    requires
        0 <= i < v.len(),
    ensures
        texts(v).len() == v.len(),
        texts(v)[i] == v[i]@,
{
}

/// A text in lower case holds another exactly where the text itself is something, a part that is the
/// other once it is in lower case, and something behind it.
pub proof fn parts_are_found_in_any_case(s: Seq<char>, p: Seq<char>)
    ensures
        contains_text(lower_all(s), p) <==> exists|a: Seq<char>, part: Seq<char>, b: Seq<char>|
            s == #[trigger] (a + part + b) && lower_all(part) == p,
{
    if contains_text(lower_all(s), p) {
        lemma_part_of_lower(s, p);
    }
    if exists|a: Seq<char>, part: Seq<char>, b: Seq<char>|
        s == #[trigger] (a + part + b) && lower_all(part) == p {
        let (a, part, b) = choose|a: Seq<char>, part: Seq<char>, b: Seq<char>|
            s == #[trigger] (a + part + b) && lower_all(part) == p;
        lemma_lower_of_part(a, part, b);
    }
}

proof fn lemma_part_of_lower(s: Seq<char>, p: Seq<char>)
    requires
        contains_text(lower_all(s), p),
    ensures
        exists|a: Seq<char>, part: Seq<char>, b: Seq<char>|
            s == #[trigger] (a + part + b) && lower_all(part) == p,
{
    let low = lower_all(s);
    let i = choose|i: int| 0 <= i <= low.len() && #[trigger] starts_with(low.skip(i), p);
    let n = i + p.len();
    let part = s.subrange(i, n);
    assert(lower_all(part) =~= low.skip(i).take(p.len() as int));
    assert(s =~= s.take(i) + part + s.skip(n));
}

proof fn lemma_lower_of_part(a: Seq<char>, part: Seq<char>, b: Seq<char>)
    ensures
        contains_text(lower_all(a + part + b), lower_all(part)),
{
    let low = lower_all(a + part + b);
    let i = a.len() as int;
    assert(low.skip(i).take(part.len() as int) =~= lower_all(part));
    assert(starts_with(low.skip(i), lower_all(part)));
}

/// Trimming takes the white space around a text, also around an empty one.
pub proof fn trimming_leaves_the_text(before: Seq<char>, s: Seq<char>, behind: Seq<char>)
    requires
        forall|i: int| 0 <= i < before.len() ==> is_space(#[trigger] before[i]),
        forall|i: int| 0 <= i < behind.len() ==> is_space(#[trigger] behind[i]),
        s.len() > 0 ==> !is_space(s[0]) && !is_space(s.last()),
    ensures
        trim(before + s + behind) == s,
{
    if s.len() > 0 {
        lemma_trim_between(before, s, behind);
    } else {
        let all = before + s + behind;
        assert forall|i: int| 0 <= i < all.len() implies is_space(#[trigger] all[i]) by {
            if i < before.len() {
                assert(all[i] == before[i]);
            } else {
                assert(all[i] == behind[i - before.len()]);
            }
        }
        blank_texts_trim_to_nothing(all);
        assert(trim(all) =~= s);
    }
}

/// Bytes are decoded whole where they are valid UTF-8, and replaced as a whole where they are not.
pub proof fn bytes_are_decoded_whole(bytes: Seq<u8>)
    ensures
        utf8::valid_utf8(bytes) ==> utf8_lossy(bytes) == utf8::decode_utf8(bytes),
        !utf8::valid_utf8(bytes) ==> utf8_lossy(bytes) == replaced(bytes),
{
}

} // verus!
