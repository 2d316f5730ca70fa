//! HTTP requests on the side of the client, and binary buffers.
use crate::text;
use crate::text::{
    chars_of, cut_once, equal_ignoring_case, read_number, same_chars, split_at_char, string_of,
    trimmed,
};
use vstd::prelude::*;

verus! {

// ---------------------------------------------------------------------------
// Requests

/// A method that requests can have.
#[derive(Debug, Clone, Copy, PartialEq, Eq, Structural)]
pub enum Method {
    Get,
    Post,
    Put,
    Delete,
    Head,
}

/// The method of a name, in capitals.
pub open spec fn method_named(name: Seq<char>) -> Option<Method> {
    if name == "GET"@ {
        Some(Method::Get)
    } else if name == "POST"@ {
        Some(Method::Post)
    } else if name == "PUT"@ {
        Some(Method::Put)
    } else if name == "DELETE"@ {
        Some(Method::Delete)
    } else if name == "HEAD"@ {
        Some(Method::Head)
    } else {
        None
    }
}

fn is_name(name: &[char], wanted: &str) -> (r: bool)
    ensures
        r == (name@ == wanted@),
{
    let w = chars_of(wanted);
    same_chars(name, w.as_slice())
}

/// The method of a name; there is no request for any other.
pub fn method_of(name: &str) -> (r: Option<Method>)
    ensures
        r == method_named(name@),
{
    let chars = chars_of(name);
    let n = chars.as_slice();
    if is_name(n, "GET") {
        Some(Method::Get)
    } else if is_name(n, "POST") {
        Some(Method::Post)
    } else if is_name(n, "PUT") {
        Some(Method::Put)
    } else if is_name(n, "DELETE") {
        Some(Method::Delete)
    } else if is_name(n, "HEAD") {
        Some(Method::Head)
    } else {
        None
    }
}

/// The name and the value of a header.
pub struct Header {
    pub name: String,
    pub value: String,
}

/// The name and the value of a header, over sequences.
pub struct HeaderView {
    pub name: Seq<char>,
    pub value: Seq<char>,
}

impl View for Header {
    type V = HeaderView;

    open spec fn view(&self) -> HeaderView {
        HeaderView { name: self.name@, value: self.value@ }
    }
}

/// The headers in a list.
pub open spec fn headers_of(hs: Seq<Header>) -> Seq<HeaderView> {
    hs.map_values(|h: Header| h@)
}

/// The header in a line: what stands before and after its first colon. A blank line and one
/// without a colon hold none.
pub open spec fn line_header(line: Seq<char>) -> Option<HeaderView> {
    match text::split_once(text::trim(line), ':') {
        Some((name, value)) => Some(
            HeaderView { name: text::trim(name), value: text::trim(value) },
        ),
        None => None,
    }
}

/// The headers in lines, in order.
pub open spec fn lines_headers(ls: Seq<Seq<char>>) -> Seq<HeaderView>
    decreases ls.len(),
{
    if ls.len() == 0 {
        Seq::empty()
    } else {
        match line_header(ls.last()) {
            Some(h) => lines_headers(ls.drop_last()).push(h),
            None => lines_headers(ls.drop_last()),
        }
    }
}

/// Reads the headers of a request, one per line.
pub fn parse_headers(header_text: &str) -> (r: Vec<Header>)
    ensures
        headers_of(r@) == lines_headers(text::split(header_text@, '\n')),
{
    let chars = chars_of(header_text);
    let ls = split_at_char(chars.as_slice(), '\n');
    let ghost all = text::split(header_text@, '\n');
    let mut out: Vec<Header> = Vec::new();
    let mut i: usize = 0;
    assert(all.take(0) =~= Seq::<Seq<char>>::empty());
    assert(headers_of(out@) =~= Seq::<HeaderView>::empty());
    while i < ls.len()
        invariant
            i <= ls@.len(),
            all == text::texts(ls@),
            headers_of(out@) == lines_headers(all.take(i as int)),
        decreases ls@.len() - i,
    {
        let ghost t = all.take(i + 1);
        assert(t.drop_last() =~= all.take(i as int));
        assert(t.last() == ls@[i as int]@);
        let ghost before = out@;
        match cut_once(trimmed(ls[i].as_slice()), ':') {
            Some((name, value)) => {
                out.push(
                    Header { name: string_of(trimmed(name)), value: string_of(trimmed(value)) },
                );
                assert(headers_of(out@) =~= headers_of(before).push(out@.last()@));
            },
            None => {},
        }
        i += 1;
    }
    assert(all.take(i as int) =~= all);
    out
}

// ---------------------------------------------------------------------------
// Responses

/// A response.
pub struct Response {
    pub status: u16,
    pub headers: Vec<Header>,
    pub body: Vec<u8>,
}

/// The last response: its body, as it came, and its headers in lines.
pub struct HttpLatch {
    body: Vec<u8>,
    headers: String,
}

/// The last response, over sequences.
pub struct HttpView {
    pub body: Seq<u8>,
    pub headers: Seq<char>,
}

impl View for HttpLatch {
    type V = HttpView;

    closed spec fn view(&self) -> HttpView {
        HttpView { body: self.body@, headers: self.headers@ }
    }
}

impl HttpLatch {
    /// No response yet.
    pub fn new() -> (r: Self)
        ensures
            r@ == (HttpView { body: Seq::empty(), headers: Seq::empty() }),
    {
        let r = HttpLatch { body: Vec::new(), headers: String::new() };
        assert(r@.headers =~= Seq::<char>::empty());
        r
    }
}

/// A header as a line.
pub open spec fn header_line(h: HeaderView) -> Seq<char> {
    h.name + ": "@ + h.value
}

/// Headers in lines, with a line feed between one and the next.
pub open spec fn joined(hs: Seq<HeaderView>) -> Seq<char>
    decreases hs.len(),
{
    if hs.len() == 0 {
        Seq::empty()
    } else if hs.len() == 1 {
        header_line(hs[0])
    } else {
        joined(hs.drop_last()) + "\n"@ + header_line(hs.last())
    }
}

fn join_headers(hs: &Vec<Header>) -> (r: String)
    ensures
        r@ == joined(headers_of(hs@)),
{
    let ghost all = headers_of(hs@);
    let mut r = String::new();
    assert(all.take(0) =~= Seq::<HeaderView>::empty());
    assert(r@ =~= Seq::<char>::empty());
    let mut i: usize = 0;
    while i < hs.len()
        invariant
            i <= hs@.len(),
            all == headers_of(hs@),
            r@ == joined(all.take(i as int)),
        decreases hs@.len() - i,
    {
        let ghost before = r@;
        if i > 0 {
            r.append("\n");
        }
        r.append(hs[i].name.as_str());
        r.append(": ");
        r.append(hs[i].value.as_str());
        i += 1;
        proof {
            let t = all.take(i as int);
            assert(t.drop_last() =~= all.take(i - 1));
            assert(t.last() == all[i - 1]);
            if i == 1 {
                assert(r@ =~= header_line(t[0]));
            } else {
                assert(r@ =~= before + "\n"@ + header_line(t.last()));
            }
        }
    }
    assert(all.take(i as int) =~= all);
    r
}

/// Keeps what came of a request: a response, or nothing where there was none. Returns the status,
/// 0 where there was no response.
pub fn n_http_do(latch: &mut HttpLatch, response: Option<Response>) -> (r: i64)
    ensures
        match response {
            Some(p) => r == p.status && final(latch)@ == (HttpView {
                body: p.body@,
                headers: joined(headers_of(p.headers@)),
            }),
            None => r == 0 && final(latch)@ == (HttpView {
                body: Seq::empty(),
                headers: Seq::empty(),
            }),
        },
{
    match response {
        Some(p) => {
            latch.headers = join_headers(&p.headers);
            latch.body = p.body;
            p.status as i64
        },
        None => {
            latch.headers = String::new();
            latch.body = Vec::new();
            assert(latch@.headers =~= Seq::<char>::empty());
            0
        },
    }
}

/// The body of the last response.
pub fn n_http_body(latch: &HttpLatch) -> (r: &[u8])
    ensures
        r@ == latch@.body,
{
    latch.body.as_slice()
}

/// The headers of the last response, one per line.
pub fn n_http_headers(latch: &HttpLatch) -> (r: &str)
    ensures
        r@ == latch@.headers,
{
    latch.headers.as_str()
}

/// The value of the first header of a name, but for the case of letters.
pub open spec fn first_value(hs: Seq<HeaderView>, name: Seq<char>) -> Option<Seq<char>>
    decreases hs.len(),
{
    if hs.len() == 0 {
        None
    } else if text::same_ignoring_case(hs[0].name, name) {
        Some(hs[0].value)
    } else {
        first_value(hs.skip(1), name)
    }
}

/// Whether a text is a minus sign and zeros.
pub open spec fn minus_zero(s: Seq<char>) -> bool {
    s.len() > 1 && s[0] == '-' && forall|i: int| 1 <= i < s.len() ==> s[i] == '0'
}

/// The length in the value of a header: a number of bytes, or -1 where it is none.
pub open spec fn length_value(s: Seq<char>) -> int {
    match text::parse_number(s, i64::MAX as nat) {
        Some(n) => n as int,
        None => if minus_zero(s) {
            0
        } else {
            -1
        },
    }
}

/// The size that a response reports: the length in its headers, where its status is a success or a
/// redirection, or -1.
pub open spec fn reported_size(status: u16, hs: Seq<HeaderView>) -> int {
    if 200 <= status < 400 {
        match first_value(hs, "content-length"@) {
            Some(v) => length_value(v),
            None => -1,
        }
    } else {
        -1
    }
}

fn read_length(s: &[char]) -> (r: i64)
    ensures
        r == length_value(s@),
{
    match read_number(s, i64::MAX as u64) {
        Some(n) => n as i64,
        None => {
            let len: usize = s.len();
            if len < 2 || s[0] != '-' {
                return -1;
            }
            let mut i: usize = 1;
            while i < len
                invariant
                    1 <= i <= len == s@.len(),
                    forall|j: int| 1 <= j < i ==> s@[j] == '0',
                    text::parse_number(s@, i64::MAX as nat) is None,
                decreases len - i,
            {
                if s[i] != '0' {
                    return -1;
                }
                i += 1;
            }
            0
        },
    }
}

/// The size that a server reported for a resource, in its response to a request for the head alone;
/// -1 where there was no response, or no length in it.
pub fn n_http_size(response: Option<&Response>) -> (r: i64)
    ensures
        r == (match response {
            Some(p) => reported_size(p.status, headers_of(p.headers@)),
            None => -1,
        }),
{
    let p = match response {
        Some(p) => p,
        None => {
            return -1;
        },
    };
    if p.status < 200 || p.status >= 400 {
        return -1;
    }
    let name = chars_of("content-length");
    let ghost all = headers_of(p.headers@);
    let mut i: usize = 0;
    assert(all.skip(0) =~= all);
    while i < p.headers.len()
        invariant
            i <= p.headers@.len(),
            all == headers_of(p.headers@),
            name@ == "content-length"@,
            200 <= p.status < 400,
            response == Some(p),
            first_value(all, name@) == first_value(all.skip(i as int), name@),
        decreases p.headers@.len() - i,
    {
        let ghost t = all.skip(i as int);
        assert(t[0] == p.headers@[i as int]@);
        assert(t.skip(1) =~= all.skip(i + 1));
        let key = chars_of(p.headers[i].name.as_str());
        if equal_ignoring_case(key.as_slice(), name.as_slice()) {
            let value = chars_of(p.headers[i].value.as_str());
            return read_length(value.as_slice());
        }
        i += 1;
    }
    -1
}

// ---------------------------------------------------------------------------
// Binary buffers

/// A buffer that is built field by field. Any byte can be in it.
pub struct PackBuf {
    buf: Vec<u8>,
}

impl View for PackBuf {
    type V = Seq<u8>;

    closed spec fn view(&self) -> Seq<u8> {
        self.buf@
    }
}

impl PackBuf {
    /// An empty buffer.
    pub fn new() -> (r: Self)
        ensures
            r@ == Seq::<u8>::empty(),
    {
        PackBuf { buf: Vec::new() }
    }
}

/// The two bytes of a value, the lower one first.
pub open spec fn le16(v: u16) -> Seq<u8> {
    seq![v as u8, (v >> 8) as u8]
}

/// The four bytes of a value, the lowest first.
pub open spec fn le32(v: u32) -> Seq<u8> {
    seq![v as u8, (v >> 8) as u8, (v >> 16) as u8, (v >> 24) as u8]
}

/// Empties the buffer.
pub fn pack_reset(pack: &mut PackBuf)
    ensures
        final(pack)@ == Seq::<u8>::empty(),
{
    pack.buf.clear();
}

/// Appends the low byte of a value.
pub fn pack_u8(pack: &mut PackBuf, b: i32)
    ensures
        final(pack)@ == old(pack)@.push(b as u8),
{
    pack.buf.push(#[verifier::truncate] (b as u8));
}

/// Appends the two low bytes of a value, the lower one first.
pub fn pack_u16_le(pack: &mut PackBuf, v: i32)
    ensures
        final(pack)@ == old(pack)@ + le16(v as u16),
{
    let ghost before = pack.buf@;
    let v: u16 = #[verifier::truncate] (v as u16);
    pack.buf.push(#[verifier::truncate] (v as u8));
    pack.buf.push(#[verifier::truncate] ((v >> 8) as u8));
    assert(pack.buf@ =~= before + le16(v));
}

/// Appends the four bytes of a value, the lowest first.
pub fn pack_u32_le(pack: &mut PackBuf, v: i32)
    ensures
        final(pack)@ == old(pack)@ + le32(v as u32),
{
    let ghost before = pack.buf@;
    let v: u32 = #[verifier::truncate] (v as u32);
    pack.buf.push(#[verifier::truncate] (v as u8));
    pack.buf.push(#[verifier::truncate] ((v >> 8) as u8));
    pack.buf.push(#[verifier::truncate] ((v >> 16) as u8));
    pack.buf.push(#[verifier::truncate] ((v >> 24) as u8));
    assert(pack.buf@ =~= before + le32(v));
}

/// Takes the buffer and leaves an empty one.
pub fn pack_take(pack: &mut PackBuf) -> (r: Vec<u8>)
    ensures
        r@ == old(pack)@,
        final(pack)@ == Seq::<u8>::empty(),
{
    let mut taken: Vec<u8> = Vec::new();
    std::mem::swap(&mut taken, &mut pack.buf);
    assert(pack.buf@ =~= Seq::<u8>::empty());
    taken
}

/// The byte at a place of a buffer, or -1 where there is none.
pub open spec fn byte_or(data: Seq<u8>, idx: int) -> int {
    if 0 <= idx < data.len() {
        data[idx] as int
    } else {
        -1
    }
}

/// Reads the byte at a place of a buffer, whatever the bytes are; -1 where there is none.
pub fn byte_at(idx: i64, data: &[u8]) -> (r: i64)
    ensures
        r == byte_or(data@, idx as int),
{
    if idx < 0 || idx as u64 >= data.len() as u64 {
        return -1;
    }
    data[idx as usize] as i64
}

/// A value of 32 bits is read back from its bytes, wherever in a buffer they stand, and its sign
/// with it.
pub proof fn packed_values_read_back(front: Seq<u8>, v: i32, back: Seq<u8>)
    ensures
        ({
            let all = front + le32(v as u32) + back;
            let i = front.len() as int;
            let u = (byte_or(all, i) as u32) | (byte_or(all, i + 1) as u32) << 8 | (byte_or(
                all,
                i + 2,
            ) as u32) << 16 | (byte_or(all, i + 3) as u32) << 24;
            u as i32 == v
        }),
{
    let u = v as u32;
    let all = front + le32(u) + back;
    let i = front.len() as int;
    assert(all[i] == u as u8);
    assert(all[i + 1] == (u >> 8) as u8);
    assert(all[i + 2] == (u >> 16) as u8);
    assert(all[i + 3] == (u >> 24) as u8);
    assert((u as u8 as u32) | ((u >> 8) as u8 as u32) << 8 | ((u >> 16) as u8 as u32) << 16 | ((u
        >> 24) as u8 as u32) << 24 == u) by (bit_vector);
    assert((v as u32) as i32 == v) by (bit_vector);
}

// ---------------------------------------------------------------------------
// Laws

/// The five methods are known by their names in capitals, and nothing else is a method.
pub proof fn methods_are_known_by_name(name: Seq<char>)
    ensures
        method_named("GET"@) == Some(Method::Get),
        method_named("POST"@) == Some(Method::Post),
        method_named("PUT"@) == Some(Method::Put),
        method_named("DELETE"@) == Some(Method::Delete),
        method_named("HEAD"@) == Some(Method::Head),
        name != "GET"@ && name != "POST"@ && name != "PUT"@ && name != "DELETE"@ && name != "HEAD"@
            ==> method_named(name) is None,
{
    reveal_strlit("GET");
    reveal_strlit("POST");
    reveal_strlit("PUT");
    reveal_strlit("DELETE");
    reveal_strlit("HEAD");
    assert("PUT"@[0] == 'P' && "GET"@[0] == 'G');
    assert("POST"@[0] == 'P' && "HEAD"@[0] == 'H');
    assert("POST"@.len() == 4 && "DELETE"@.len() == 6);
}

/// A header line is its name and its value, whole but for the white space around them: what stands
/// before the first colon, and all that stands behind it. A line without a colon holds no header.
pub proof fn header_lines_are_taken_apart(
    a: Seq<char>,
    name: Seq<char>,
    b: Seq<char>,
    c: Seq<char>,
    value: Seq<char>,
    d: Seq<char>,
)
    requires
        forall|i: int| 0 <= i < a.len() ==> text::is_space(#[trigger] a[i]),
        forall|i: int| 0 <= i < b.len() ==> text::is_space(#[trigger] b[i]),
        forall|i: int| 0 <= i < c.len() ==> text::is_space(#[trigger] c[i]),
        forall|i: int| 0 <= i < d.len() ==> text::is_space(#[trigger] d[i]),
        forall|i: int| 0 <= i < name.len() ==> name[i] != ':',
        name.len() > 0 && !text::is_space(name[0]) && !text::is_space(name.last()),
        value.len() > 0 ==> !text::is_space(value[0]) && !text::is_space(value.last()),
    ensures
        line_header(a + name + b + seq![':'] + c + value + d) == Some(HeaderView { name, value }),
        line_header(a + name + b) is None,
        line_header(a) is None,
{
    let key = name + b;
    let tail = if value.len() > 0 {
        c + value
    } else {
        value
    };
    let inner = key + seq![':'] + tail;
    let behind = if value.len() > 0 {
        d
    } else {
        c + d
    };
    let all = a + name + b + seq![':'] + c + value + d;
    assert(all =~= a + inner + behind);
    assert(inner[0] == name[0]);
    assert(!text::is_space(inner.last())) by {
        assert(value.len() > 0 ==> inner.last() == value.last());
    }
    assert forall|i: int| 0 <= i < behind.len() implies text::is_space(#[trigger] behind[i]) by {
        if value.len() == 0 {
            if i < c.len() {
                assert(behind[i] == c[i]);
            } else {
                assert(behind[i] == d[i - c.len()]);
            }
        }
    }
    text::lemma_trim_between(a, inner, behind);
    assert forall|i: int| 0 <= i < key.len() implies key[i] != ':' by {
        if i >= name.len() {
            assert(text::is_space(b[i - name.len()]));
        }
    }
    text::texts_are_cut_whole(key, ':', tail);
    let none = Seq::<char>::empty();
    text::lemma_trim_between(none, name, b);
    let front = if value.len() > 0 {
        c
    } else {
        none
    };
    text::trimming_leaves_the_text(front, value, none);
    assert(none + name + b =~= key);
    assert(front + value + none =~= tail);
    text::lemma_trim_between(a, name, b);
    text::texts_are_cut_whole(name, ':', none);
    text::blank_texts_trim_to_nothing(a);
    text::texts_are_cut_whole(none, ':', none);
    assert(text::trim(a) =~= none);
}

/// The headers of a request are those of its lines, every one and in order: a line more adds its
/// header behind the others, or nothing where it holds none.
pub proof fn headers_are_read_line_by_line(header_text: Seq<char>, line: Seq<char>)
    requires
        forall|i: int| 0 <= i < line.len() ==> line[i] != '\n',
    ensures
        lines_headers(text::split(line, '\n')) == (match line_header(line) {
            Some(h) => seq![h],
            None => Seq::<HeaderView>::empty(),
        }),
        lines_headers(text::split(header_text + seq!['\n'] + line, '\n')) == lines_headers(
            text::split(header_text, '\n'),
        ) + (match line_header(line) {
            Some(h) => seq![h],
            None => Seq::<HeaderView>::empty(),
        }),
{
    let before = text::split(header_text, '\n');
    let one = seq![line];
    text::lemma_one_piece(line, '\n');
    text::lemma_split_concat(header_text, '\n', line);
    assert(one.drop_last() =~= Seq::<Seq<char>>::empty());
    assert(lines_headers(Seq::<Seq<char>>::empty()) =~= Seq::<HeaderView>::empty());
    let both = before + one;
    assert(both.drop_last() =~= before);
    assert(both.last() == line);
    match line_header(line) {
        Some(h) => {
            assert(lines_headers(one) =~= seq![h]);
            assert(lines_headers(both) =~= lines_headers(before) + seq![h]);
        },
        None => {
            assert(lines_headers(both) =~= lines_headers(before) + Seq::<HeaderView>::empty());
        },
    }
}

/// The headers of a response are kept one per line, every one and in order, each as its name, a
/// colon, a space and its value.
pub proof fn response_headers_are_kept(hs: Seq<HeaderView>, h: HeaderView)
    ensures
        joined(Seq::<HeaderView>::empty()).len() == 0,
        joined(seq![h]) == h.name + seq![':', ' '] + h.value,
        hs.len() > 0 ==> joined(hs.push(h)) == joined(hs) + seq!['\n'] + h.name + seq![':', ' ']
            + h.value,
{
    reveal_strlit(": ");
    reveal_strlit("\n");
    assert(": "@ =~= seq![':', ' ']);
    assert("\n"@ =~= seq!['\n']);
    assert(hs.push(h).drop_last() =~= hs);
    if hs.len() > 0 {
        assert(joined(hs.push(h)) =~= joined(hs) + seq!['\n'] + h.name + seq![':', ' '] + h.value);
    }
}

/// The first header of a name is the one that counts, in any case of its letters.
pub proof fn the_first_header_counts(
    before: Seq<HeaderView>,
    h: HeaderView,
    behind: Seq<HeaderView>,
    name: Seq<char>,
)
    requires
        forall|i: int|
            0 <= i < before.len() ==> text::lower_all((#[trigger] before[i]).name)
                != text::lower_all(name),
        text::lower_all(h.name) == text::lower_all(name),
    ensures
        first_value(before.push(h) + behind, name) == Some(h.value),
        first_value(before, name) is None,
    decreases before.len(),
{
    let all = before.push(h) + behind;
    if before.len() > 0 {
        let rest = before.skip(1);
        assert(all[0] == before[0]);
        assert(all.skip(1) =~= rest.push(h) + behind);
        assert forall|i: int| 0 <= i < rest.len() implies text::lower_all(
            (#[trigger] rest[i]).name,
        ) != text::lower_all(name) by {
            assert(rest[i] == before[i + 1]);
        }
        the_first_header_counts(rest, h, behind, name);
    } else {
        assert(all[0] == h);
    }
}

/// The size that a response reports is the number in its first length, where its status is a success
/// or a redirection; a length that is no number, or none, or another status, reports none.
pub proof fn sizes_are_reported(status: u16, hs: Seq<HeaderView>, zeros: Seq<char>, n: nat)
    requires
        forall|i: int| 0 <= i < zeros.len() ==> zeros[i] == '0',
    ensures
        status < 200 || status >= 400 ==> reported_size(status, hs) == -1,
        200 <= status < 400 ==> reported_size(status, hs) == (match first_value(
            hs,
            "content-length"@,
        ) {
            Some(v) => length_value(v),
            None => -1,
        }),
        length_value(zeros + text::decimal(n)) == (if n <= i64::MAX {
            n as int
        } else {
            -1
        }),
        zeros.len() > 0 ==> length_value(seq!['-'] + zeros) == 0,
        forall|s: Seq<char>| #[trigger] length_value(s) >= -1,
        forall|s: Seq<char>| #[trigger]
            length_value(s) >= 0 ==> text::parse_number(s, i64::MAX as nat) == Some(
                length_value(s) as nat,
            ) || (s.len() > 1 && s[0] == '-' && length_value(s) == 0 && forall|i: int|
                1 <= i < s.len() ==> s[i] == '0'),
{
    text::numbers_read_back(zeros, n, i64::MAX as nat);
    text::lemma_decimal_digits(n);
    let s = zeros + text::decimal(n);
    assert(s[0] != '-') by {
        if zeros.len() == 0 {
            assert(s[0] == text::decimal(n)[0]);
        } else {
            assert(s[0] == zeros[0]);
        }
    }
    if zeros.len() > 0 {
        let m = seq!['-'] + zeros;
        text::only_digits_are_numbers(m, 0, i64::MAX as nat);
        assert(forall|i: int| 1 <= i < m.len() ==> m[i] == zeros[i - 1]);
    }
}

/// A value is packed as its bytes, the lowest first: they are its digits to the base 256.
pub proof fn values_are_packed_low_byte_first(v: u16, w: u32)
    ensures
        le16(v).len() == 2,
        le16(v)[0] + le16(v)[1] * 0x100 == v,
        le32(w).len() == 4,
        le32(w)[0] + le32(w)[1] * 0x100 + le32(w)[2] * 0x1_0000 + le32(w)[3] * 0x100_0000 == w,
{
    assert((v as u8) + ((v >> 8) as u8) * 0x100 == v) by (bit_vector);
    assert((w as u8) + ((w >> 8) as u8) * 0x100 + ((w >> 16) as u8) * 0x1_0000 + ((w >> 24) as u8)
        * 0x100_0000 == w) by (bit_vector);
}

/// Every byte of a buffer is read as its value, and there is none before or behind it.
pub proof fn bytes_are_read_as_they_are(data: Seq<u8>, idx: int)
    ensures
        0 <= idx < data.len() ==> byte_or(data, idx) == data[idx],
        idx < 0 || idx >= data.len() ==> byte_or(data, idx) == -1,
{
}

/// The headers in a list are all of them, in order, each with its name and its value.
pub proof fn headers_are_seen_as_they_are(hs: Seq<Header>, i: int)
    requires
        0 <= i < hs.len(),
    ensures
        headers_of(hs).len() == hs.len(),
        headers_of(hs)[i].name == hs[i].name@,
        headers_of(hs)[i].value == hs[i].value@,
{
}

} // verus!
