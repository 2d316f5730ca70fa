//! HTTP on the server side: reading a request off the wire and writing the bytes of a response.
use crate::text;
use crate::text::{
    append_bytes, chars_of, cut_once, decimal_string, equal_ignoring_case, from_utf8_lossy,
    has_prefix, latin1_chars, lowered, read_number, split_at_char, split_lines, split_words,
    string_of, trimmed,
};
use vstd::prelude::*;
use vstd::slice::slice_subrange;
use vstd::utf8;

verus! {

// ---------------------------------------------------------------------------
// The head of a message

/// A header block longer than this is given up on.
pub const HEAD_LIMIT: usize = 16384;

/// Whether the first `n` bytes of `input` end in an empty line.
pub open spec fn empty_line_at(input: Seq<u8>, n: int) -> bool {
    4 <= n <= input.len() && input[n - 4] == 13 && input[n - 3] == 10 && input[n - 2] == 13
        && input[n - 1] == 10
}

/// Whether the head of the message in `input` is its first `n` bytes: up to the first empty line.
pub open spec fn is_head_end(input: Seq<u8>, n: int) -> bool {
    &&& empty_line_at(input, n)
    &&& forall|m: int| 0 <= m < n ==> !empty_line_at(input, m)
}

/// The size that bytes have once each is a character of a text in UTF-8.
pub open spec fn text_size(bytes: Seq<u8>) -> nat
    decreases bytes.len(),
{
    if bytes.len() == 0 {
        0
    } else {
        text_size(bytes.drop_last()) + if bytes.last() < 128 {
            1nat
        } else {
            2
        }
    }
}

/// The head of the message in `input`: all up to the first empty line, unless what comes before
/// its last byte is above the limit already.
pub open spec fn head_of(input: Seq<u8>) -> Option<Seq<u8>> {
    if exists|n: int| is_head_end(input, n) {
        let n = choose|n: int| is_head_end(input, n);
        if text_size(input.take(n - 1)) <= HEAD_LIMIT {
            Some(input.take(n))
        } else {
            None
        }
    } else {
        None
    }
}

/// What a `HeadReader` makes of the next byte.
#[derive(Debug, Clone, Copy, PartialEq, Eq, Structural)]
pub enum HeadStep {
    /// The head goes on.
    More,
    /// The byte was the last of the head.
    Complete,
    /// The head is above the limit.
    TooLong,
}

/// Collects the head of a message byte by byte, so that nothing behind the head is ever taken off
/// the wire.
pub struct HeadReader {
    bytes: Vec<u8>,
    size: usize,
}

impl View for HeadReader {
    type V = Seq<u8>;

    closed spec fn view(&self) -> Seq<u8> {
        self.bytes@
    }
}

impl HeadReader {
    /// Whether the head is still being read: no empty line yet, and not above the limit.
    pub closed spec fn reading(&self) -> bool {
        &&& self.size == text_size(self.bytes@)
        &&& self.size <= HEAD_LIMIT
        &&& forall|m: int| 0 <= m <= self.bytes@.len() ==> !empty_line_at(self.bytes@, m)
    }

    /// What `reading` promises of the bytes read so far.
    pub proof fn lemma_reading(&self)
        requires
            self.reading(),
        ensures
            text_size(self@) <= HEAD_LIMIT,
            forall|m: int| 0 <= m <= self@.len() ==> !empty_line_at(self@, m),
    {
    }

    /// A reader that has read nothing.
    pub fn new() -> (r: Self)
        ensures
            r.reading(),
            r@ == Seq::<u8>::empty(),
    {
        HeadReader { bytes: Vec::new(), size: 0 }
    }

    /// Takes the next byte.
    pub fn push(&mut self, byte: u8) -> (r: HeadStep)
        requires
            old(self).reading(),
        ensures
            final(self)@ == old(self)@.push(byte),
            r == (if empty_line_at(final(self)@, final(self)@.len() as int) {
                HeadStep::Complete
            } else if text_size(final(self)@) > HEAD_LIMIT {
                HeadStep::TooLong
            } else {
                HeadStep::More
            }),
            r == HeadStep::Complete ==> is_head_end(final(self)@, final(self)@.len() as int),
            r == HeadStep::More ==> final(self).reading(),
    {
        let ghost before = self.bytes@;
        self.bytes.push(byte);
        assert(self.bytes@.drop_last() == before);
        assert forall|m: int| 0 <= m < self.bytes@.len() implies !empty_line_at(self.bytes@, m) by {
            assert(!empty_line_at(before, m));
        }
        if byte < 128 {
            self.size += 1;
        } else {
            self.size += 2;
        }
        let n: usize = self.bytes.len();
        if n >= 4 && self.bytes[n - 4] == 13 && self.bytes[n - 3] == 10 && self.bytes[n - 2] == 13
            && self.bytes[n - 1] == 10 {
            HeadStep::Complete
        } else if self.size > HEAD_LIMIT {
            HeadStep::TooLong
        } else {
            HeadStep::More
        }
    }

    /// The bytes read so far.
    pub fn bytes(&self) -> (r: &[u8])
        ensures
            r@ == self@,
    {
        self.bytes.as_slice()
    }
}

/// More bytes never have a smaller size.
proof fn lemma_text_size_grows(s: Seq<u8>, i: int)
    requires
        0 <= i <= s.len(),
    ensures
        text_size(s.take(i)) <= text_size(s),
    decreases s.len() - i,
{
    if i < s.len() {
        lemma_text_size_grows(s, i + 1);
        assert(s.take(i + 1).drop_last() == s.take(i));
    } else {
        assert(s.take(i) == s);
    }
}

/// There is at most one end of the head.
pub proof fn lemma_head_end_unique(input: Seq<u8>, n: int, m: int)
    requires
        is_head_end(input, n),
        is_head_end(input, m),
    ensures
        n == m,
{
    if n < m {
        assert(!empty_line_at(input, n));
    } else if m < n {
        assert(!empty_line_at(input, m));
    }
}

/// Bytes whose only empty lines are the last two are one head.
pub proof fn lemma_head_whole(bytes: Seq<u8>, ls: Seq<Seq<char>>)
    requires
        empty_line_at(bytes, bytes.len() as int),
        text::lines(text::latin1(bytes)) == ls.push(Seq::<char>::empty()).push(
            Seq::<char>::empty(),
        ),
        forall|i: int| 0 <= i < ls.len() ==> (#[trigger] ls[i]).len() > 0,
    ensures
        is_head_end(bytes, bytes.len() as int),
{
    let none = Seq::<char>::empty();
    let crlf = seq!['\r', '\n'];
    let s = text::latin1(bytes);
    let all = text::lines(s);
    assert forall|m: int| 0 <= m < bytes.len() implies !empty_line_at(bytes, m) by {
        if empty_line_at(bytes, m) {
            let front = s.take(m - 4);
            let back = s.skip(m);
            assert(s =~= front + crlf + (none + crlf + back));
            text::lemma_lines_concat(front, none + crlf + back);
            text::lemma_lines_concat(none, back);
            text::lemma_one_line(none);
            let k = text::lines(front).len();
            assert(all =~= text::lines(front) + seq![none] + text::lines(back));
            assert(all[k as int] == none);
            if k < ls.len() {
                assert(all[k as int] == ls[k as int]);
            }
            assert(text::lines(back).len() > 0);
            assert(text::lines(back).len() == 1);
            assert(all.last() == text::lines(back)[0]);
            text::lemma_find_crlf(back);
            let i = text::find_crlf(back);
            if i < back.len() {
                assert(text::lines(back.skip(i + 2)).len() > 0);
            }
            assert(back =~= none);
        }
    }
}

/// Reads the head at the front of `input`, byte by byte: its length, or nothing where it does not
/// end or is above the limit.
pub fn read_head(input: &[u8]) -> (r: Option<usize>)
    ensures
        match r {
            Some(n) => n <= input@.len() && head_of(input@) == Some(input@.take(n as int)),
            None => head_of(input@) is None,
        },
{
    let mut reader = HeadReader::new();
    let mut i: usize = 0;
    assert(input@.take(0) =~= Seq::<u8>::empty());
    while i < input.len()
        invariant
            i <= input@.len(),
            reader.reading(),
            reader@ == input@.take(i as int),
        decreases input@.len() - i,
    {
        let ghost before = reader@;
        proof {
            reader.lemma_reading();
        }
        let step = reader.push(input[i]);
        i += 1;
        let ghost now = reader@;
        assert(now =~= input@.take(i as int));
        proof {
            assert forall|m: int| 0 <= m < i implies !empty_line_at(input@, m) by {
                assert(!empty_line_at(before, m));
            }
            assert(empty_line_at(now, i as int) == empty_line_at(input@, i as int));
        }
        if step == HeadStep::Complete {
            proof {
                assert(is_head_end(input@, i as int));
                let n = choose|n: int| is_head_end(input@, n);
                lemma_head_end_unique(input@, i as int, n);
                assert(input@.take(i - 1) =~= before);
            }
            return Some(i);
        }
        if step == HeadStep::TooLong {
            proof {
                if exists|n: int| is_head_end(input@, n) {
                    let n = choose|n: int| is_head_end(input@, n);
                    assert(n > i);
                    lemma_text_size_grows(input@.take(n - 1), i as int);
                    assert(input@.take(n - 1).take(i as int) =~= now);
                }
            }
            return None;
        }
    }
    proof {
        reader.lemma_reading();
        assert(input@.take(i as int) == input@);
        if exists|n: int| is_head_end(input@, n) {
            let n = choose|n: int| is_head_end(input@, n);
            assert(!empty_line_at(reader@, n));
        }
    }
    None
}

// ---------------------------------------------------------------------------
// Requests

/// The length that a header line declares: the value of a `Content-Length`, or 0 where that is no
/// number; nothing where the line is another header.
pub open spec fn declared_length(line: Seq<char>) -> Option<nat> {
    match text::split_once(line, ':') {
        Some((key, value)) => if text::same_ignoring_case(text::trim(key), "content-length"@) {
            match text::parse_number(text::trim(value), usize::MAX as nat) {
                Some(n) => Some(n),
                None => Some(0),
            }
        } else {
            None
        },
        None => None,
    }
}

/// The length of the body behind header lines: what the last `Content-Length` among them declares.
pub open spec fn body_length(ls: Seq<Seq<char>>) -> nat
    decreases ls.len(),
{
    if ls.len() == 0 {
        0
    } else {
        match declared_length(ls.last()) {
            Some(n) => n,
            None => body_length(ls.drop_last()),
        }
    }
}

/// The header lines that are not empty, each followed by a line feed.
pub open spec fn header_block(ls: Seq<Seq<char>>) -> Seq<char>
    decreases ls.len(),
{
    if ls.len() == 0 {
        Seq::empty()
    } else if ls.last().len() == 0 {
        header_block(ls.drop_last())
    } else {
        header_block(ls.drop_last()) + ls.last() + seq!['\n']
    }
}

/// What the head of a request says.
pub struct RequestHead {
    pub method: String,
    pub path: String,
    /// The header lines, each followed by a line feed.
    pub headers: String,
    /// How many bytes of body follow.
    pub content_length: usize,
}

/// What the head of a request says, over sequences.
pub struct HeadView {
    pub method: Seq<char>,
    pub path: Seq<char>,
    pub headers: Seq<char>,
    pub content_length: nat,
}

impl View for RequestHead {
    type V = HeadView;

    open spec fn view(&self) -> HeadView {
        HeadView {
            method: self.method@,
            path: self.path@,
            headers: self.headers@,
            content_length: self.content_length as nat,
        }
    }
}

/// The request in a head: the first two words of its first line, and the lines after it. A first
/// line of fewer words is no request.
pub open spec fn head_view(head: Seq<u8>) -> Option<HeadView> {
    let ls = text::lines(text::latin1(head));
    let first = text::words(ls[0]);
    if first.len() < 2 {
        None
    } else {
        Some(
            HeadView {
                method: first[0],
                path: first[1],
                headers: header_block(ls.skip(1)),
                content_length: body_length(ls.skip(1)),
            },
        )
    }
}

fn read_declared_length(line: &[char]) -> (r: Option<usize>)
    ensures
        match r {
            Some(n) => declared_length(line@) == Some(n as nat),
            None => declared_length(line@) is None,
        },
{
    let name = chars_of("content-length");
    match cut_once(line, ':') {
        Some((key, value)) => {
            if equal_ignoring_case(trimmed(key), name.as_slice()) {
                match read_number(trimmed(value), usize::MAX as u64) {
                    Some(n) => Some(n as usize),
                    None => Some(0),
                }
            } else {
                None
            }
        },
        None => None,
    }
}

/// Reads the head of a request.
pub fn parse_head(head: &[u8]) -> (r: Option<RequestHead>)
    ensures
        match r {
            Some(h) => head_view(head@) == Some(h@),
            None => head_view(head@) is None,
        },
{
    let text = latin1_chars(head);
    let ls = split_lines(text.as_slice());
    let ghost all = text::lines(text::latin1(head@));
    assert(all[0] == ls@[0]@);
    let first = split_words(ls[0].as_slice());
    let ghost ws = text::words(all[0]);
    assert(ws.len() == first@.len());
    if first.len() < 2 {
        return None;
    }
    assert(ws[0] == first@[0]@ && ws[1] == first@[1]@);
    let ghost rest = all.skip(1);
    let mut headers = String::new();
    let mut content_length: usize = 0;
    let mut i: usize = 1;
    assert(rest.take(0) =~= Seq::<Seq<char>>::empty());
    while i < ls.len()
        invariant
            1 <= i <= ls@.len(),
            all == text::texts(ls@),
            rest == all.skip(1),
            headers@ == header_block(rest.take(i - 1)),
            content_length == body_length(rest.take(i - 1)),
        decreases ls@.len() - i,
    {
        let line = &ls[i];
        let ghost done = rest.take(i as int);
        assert(done.drop_last() =~= rest.take(i - 1));
        assert(done.last() == line@);
        if line.len() > 0 {
            if let Some(n) = read_declared_length(line.as_slice()) {
                content_length = n;
            }
            headers.append(string_of(line.as_slice()).as_str());
            headers.push('\n');
            assert(headers@ =~= header_block(rest.take(i - 1)) + line@ + seq!['\n']);
        } else {
            assert(text::split_once(line@, ':') is None);
        }
        i += 1;
    }
    assert(rest.take(i - 1) =~= rest);
    Some(
        RequestHead {
            method: string_of(first[0].as_slice()),
            path: string_of(first[1].as_slice()),
            headers,
            content_length,
        },
    )
}

/// A request with its body.
pub struct Request {
    pub method: String,
    pub path: String,
    /// The header lines, each followed by a line feed.
    pub headers: String,
    pub body: String,
}

/// A request with its body, over sequences.
pub struct RequestView {
    pub method: Seq<char>,
    pub path: Seq<char>,
    pub headers: Seq<char>,
    pub body: Seq<char>,
}

impl View for Request {
    type V = RequestView;

    open spec fn view(&self) -> RequestView {
        RequestView {
            method: self.method@,
            path: self.path@,
            headers: self.headers@,
            body: self.body@,
        }
    }
}

/// The text of a body, empty where there are no bytes.
pub open spec fn body_text(body: Seq<u8>) -> Seq<char> {
    if body.len() == 0 {
        Seq::empty()
    } else {
        text::utf8_lossy(body)
    }
}

/// The request that a head and the bytes of its body make.
pub open spec fn request_view(head: HeadView, body: Seq<u8>) -> RequestView {
    RequestView {
        method: head.method,
        path: head.path,
        headers: head.headers,
        body: body_text(body),
    }
}

/// Joins a head and the bytes of its body.
pub fn with_body(head: RequestHead, body: &[u8]) -> (r: Request)
    ensures
        r@ == request_view(head@, body@),
{
    let text = if body.len() > 0 {
        from_utf8_lossy(body)
    } else {
        String::new()
    };
    Request { method: head.method, path: head.path, headers: head.headers, body: text }
}

/// A request at the front of some bytes.
pub struct Parsed {
    pub request: Request,
    /// How many bytes it took.
    pub consumed: usize,
}

/// The request at the front of `input`, and how many bytes it took: a head, then as many bytes of
/// body as the head declares. Nothing where either is incomplete.
pub open spec fn request_at(input: Seq<u8>) -> Option<(RequestView, int)> {
    match head_of(input) {
        Some(head) => match head_view(head) {
            Some(h) => if head.len() + h.content_length <= input.len() {
                let end = head.len() + h.content_length;
                Some((request_view(h, input.subrange(head.len() as int, end as int)), end as int))
            } else {
                None
            },
            None => None,
        },
        None => None,
    }
}

/// Reads the request at the front of `input`, and nothing behind it.
pub fn parse_request(input: &[u8]) -> (r: Option<Parsed>)
    ensures
        match r {
            Some(p) => request_at(input@) == Some((p.request@, p.consumed as int)),
            None => request_at(input@) is None,
        },
{
    let n: usize = match read_head(input) {
        Some(n) => n,
        None => {
            return None;
        },
    };
    let head = slice_subrange(input, 0, n);
    assert(head@ =~= input@.take(n as int));
    match parse_head(head) {
        Some(h) => {
            if h.content_length > input.len() - n {
                return None;
            }
            let end: usize = n + h.content_length;
            let body = slice_subrange(input, n, end);
            Some(Parsed { request: with_body(h, body), consumed: end })
        },
        None => None,
    }
}

/// A request is what its own bytes say: whatever follows it on the wire changes nothing, and is
/// left untouched.
pub proof fn requests_end_where_they_say(input: Seq<u8>, rest: Seq<u8>)
    ensures
        request_at(input) matches Some((request, end)) ==> {
            &&& 0 < end <= input.len()
            &&& request_at(input.take(end) + rest) == Some((request, end))
        },
{
    if let Some((_, end)) = request_at(input) {
        let n = choose|n: int| is_head_end(input, n);
        let other = input.take(end) + rest;
        assert forall|m: int| m <= n implies empty_line_at(other, m) == empty_line_at(
            input,
            m,
        ) by {}
        assert(is_head_end(other, n));
        let o = choose|o: int| is_head_end(other, o);
        lemma_head_end_unique(other, o, n);
        assert(other.take(n - 1) =~= input.take(n - 1));
        assert(other.take(n) =~= input.take(n));
        assert(other.subrange(n, end) =~= input.subrange(n, end));
    }
}

// ---------------------------------------------------------------------------
// Responses

/// The reason phrase of a status.
pub open spec fn reason(status: u16) -> Seq<char> {
    if status == 200 {
        "OK"@
    } else if status == 201 {
        "Created"@
    } else if status == 204 {
        "No Content"@
    } else if status == 206 {
        "Partial Content"@
    } else if status == 304 {
        "Not Modified"@
    } else if status == 400 {
        "Bad Request"@
    } else if status == 404 {
        "Not Found"@
    } else if status == 405 {
        "Method Not Allowed"@
    } else if status == 416 {
        "Range Not Satisfiable"@
    } else if status == 500 {
        "Internal Server Error"@
    } else {
        "Unknown"@
    }
}

/// The reason phrase of a status.
pub fn status_text(status: u16) -> (r: &'static str)
    ensures
        r@ == reason(status),
{
    match status {
        200 => "OK",
        201 => "Created",
        204 => "No Content",
        206 => "Partial Content",
        304 => "Not Modified",
        400 => "Bad Request",
        404 => "Not Found",
        405 => "Method Not Allowed",
        416 => "Range Not Satisfiable",
        500 => "Internal Server Error",
        _ => "Unknown",
    }
}

/// The head of a response whose body has `len` bytes of the given type: never cached, and the
/// connection closes after it.
pub open spec fn response_head(status: u16, content_type: Seq<char>, len: nat) -> Seq<char> {
    "HTTP/1.1 "@ + text::decimal(status as nat) + " "@ + reason(status) + "\r\nContent-Length: "@
        + text::decimal(len) + "\r\nContent-Type: "@ + content_type
        + "\r\nCache-Control: no-store, no-cache, must-revalidate, max-age=0\r\nPragma: no-cache\r\nExpires: 0\r\nConnection: close\r\n\r\n"@
}

/// The bytes of a response: its head, then the body as it is.
pub open spec fn response(status: u16, content_type: Seq<char>, body: Seq<u8>) -> Seq<u8> {
    utf8::encode_utf8(response_head(status, content_type, body.len())) + body
}

/// The bytes of a response with the given body, which is sent as it is.
pub fn write_response(status: u16, content_type: &str, body: &[u8]) -> (out: Vec<u8>)
    ensures
        out@ == response(status, content_type@, body@),
{
    let mut head = String::new();
    head.append("HTTP/1.1 ");
    head.append(decimal_string(status as u64).as_str());
    head.append(" ");
    head.append(status_text(status));
    head.append("\r\nContent-Length: ");
    head.append(decimal_string(body.len() as u64).as_str());
    head.append("\r\nContent-Type: ");
    head.append(content_type);
    head.append(
        "\r\nCache-Control: no-store, no-cache, must-revalidate, max-age=0\r\nPragma: no-cache\r\nExpires: 0\r\nConnection: close\r\n\r\n",
    );
    assert(head@ =~= response_head(status, content_type@, body@.len()));
    let mut out: Vec<u8> = Vec::new();
    append_bytes(&mut out, head.as_str().as_bytes());
    append_bytes(&mut out, body);
    assert(out@ =~= response(status, content_type@, body@));
    out
}

/// The content type to use: the given one, or `fallback` where it is missing or empty.
pub open spec fn type_or(given: Option<&str>, fallback: Seq<char>) -> Seq<char> {
    match given {
        Some(t) => if t@.len() > 0 {
            t@
        } else {
            fallback
        },
        None => fallback,
    }
}

fn choose_type<'a>(given: Option<&'a str>, fallback: &'a str) -> (r: &'a str)
    ensures
        r@ == type_or(given, fallback@),
{
    match given {
        Some(t) => if t.is_empty() {
            fallback
        } else {
            t
        },
        None => fallback,
    }
}

/// A plain-text response.
pub fn n_tcp_respond(status: i64, body: &str) -> (out: Vec<u8>)
    ensures
        out@ == response(status as u16, "text/plain; charset=utf-8"@, utf8::encode_utf8(body@)),
{
    write_response(
        #[verifier::truncate] (status as u16),
        "text/plain; charset=utf-8",
        body.as_bytes(),
    )
}

/// A text response of the given content type, plain text where none is given.
pub fn n_tcp_respond_typed(status: i64, body: &str, content_type: Option<&str>) -> (out: Vec<u8>)
    ensures
        out@ == response(
            status as u16,
            type_or(content_type, "text/plain; charset=utf-8"@),
            utf8::encode_utf8(body@),
        ),
{
    write_response(
        #[verifier::truncate] (status as u16),
        choose_type(content_type, "text/plain; charset=utf-8"),
        body.as_bytes(),
    )
}

/// A response whose body is raw bytes, of the given content type, or an octet stream where none is
/// given.
pub fn n_tcp_respond_bytes(status: i64, body: &[u8], content_type: Option<&str>) -> (out: Vec<u8>)
    ensures
        out@ == response(
            status as u16,
            type_or(content_type, "application/octet-stream"@),
            body@,
        ),
{
    write_response(
        #[verifier::truncate] (status as u16),
        choose_type(content_type, "application/octet-stream"),
        body,
    )
}

/// The lines that are not blank, trimmed, each with a line end.
pub open spec fn trimmed_block(ls: Seq<Seq<char>>) -> Seq<char>
    decreases ls.len(),
{
    if ls.len() == 0 {
        Seq::empty()
    } else if text::trim(ls.last()).len() == 0 {
        trimmed_block(ls.drop_last())
    } else {
        trimmed_block(ls.drop_last()) + text::trim(ls.last()) + "\r\n"@
    }
}

/// Whether a header line gives a content length.
pub open spec fn gives_length(line: Seq<char>) -> bool {
    text::starts_with(text::lower_all(text::trim(line)), "content-length:"@)
}

/// The head of a response with the caller's own header lines. A content length is added unless
/// one of the lines gives one; the connection always closes.
pub open spec fn full_head(status: u16, headers: Seq<char>, len: nat) -> Seq<char> {
    let ls = text::split(headers, '\n');
    let added = if exists|i: int| 0 <= i < ls.len() && #[trigger] gives_length(ls[i]) {
        Seq::<char>::empty()
    } else {
        "Content-Length: "@ + text::decimal(len) + "\r\n"@
    };
    "HTTP/1.1 "@ + text::decimal(status as nat) + " "@ + reason(status) + "\r\n"@
        + trimmed_block(ls) + added + "Connection: close\r\n\r\n"@
}

/// Reads the caller's header lines: the block that is sent, and whether one gives a length.
fn own_headers(headers: &str) -> (r: (String, bool))
    ensures
        r.0@ == trimmed_block(text::split(headers@, '\n')),
        r.1 == exists|i: int|
            0 <= i < text::split(headers@, '\n').len() && #[trigger] gives_length(
                text::split(headers@, '\n')[i],
            ),
{
    let marker = chars_of("content-length:");
    let text = chars_of(headers);
    let ls = split_at_char(text.as_slice(), '\n');
    let ghost all = text::split(headers@, '\n');
    let mut block = String::new();
    let mut has_len: bool = false;
    let mut i: usize = 0;
    assert(all.take(0) =~= Seq::<Seq<char>>::empty());
    while i < ls.len()
        invariant
            i <= ls@.len(),
            all == text::texts(ls@),
            marker@ == "content-length:"@,
            block@ == trimmed_block(all.take(i as int)),
            has_len == exists|j: int| 0 <= j < i && #[trigger] gives_length(all[j]),
        decreases ls@.len() - i,
    {
        let line = trimmed(ls[i].as_slice());
        let ghost done = all.take(i + 1);
        assert(done.drop_last() =~= all.take(i as int));
        assert(done.last() == all[i as int]);
        let low = lowered(line);
        if has_prefix(low.as_slice(), marker.as_slice()) {
            assert(gives_length(all[i as int]));
            has_len = true;
        } else {
            assert(!gives_length(all[i as int]));
        }
        if line.len() > 0 {
            block.append(string_of(line).as_str());
            block.append("\r\n");
        }
        i += 1;
    }
    assert(all.take(i as int) =~= all);
    (block, has_len)
}

/// A response with the caller's own header lines, one per line of `headers`.
pub fn n_tcp_respond_full(status: i64, body: &[u8], headers: &str) -> (out: Vec<u8>)
    ensures
        out@ == utf8::encode_utf8(full_head(status as u16, headers@, body@.len())) + body@,
{
    let status: u16 = #[verifier::truncate] (status as u16);
    let (block, has_len) = own_headers(headers);
    let mut head = String::new();
    head.append("HTTP/1.1 ");
    head.append(decimal_string(status as u64).as_str());
    head.append(" ");
    head.append(status_text(status));
    head.append("\r\n");
    head.append(block.as_str());
    if !has_len {
        head.append("Content-Length: ");
        head.append(decimal_string(body.len() as u64).as_str());
        head.append("\r\n");
    }
    head.append("Connection: close\r\n\r\n");
    assert(head@ =~= full_head(status, headers@, body@.len()));
    let mut out: Vec<u8> = Vec::new();
    append_bytes(&mut out, head.as_str().as_bytes());
    append_bytes(&mut out, body);
    assert(out@ =~= utf8::encode_utf8(full_head(status, headers@, body@.len())) + body@);
    out
}

/// A header line whose name holds no colon, and is not the name of a length, declares none.
proof fn lemma_other_header(name: Seq<char>, rest: Seq<char>)
    requires
        forall|i: int|
            0 <= i < name.len() ==> name[i] != ':' && !text::is_space(#[trigger] name[i]),
        name.len() > 0,
        name.len() != "content-length"@.len(),
    ensures
        declared_length(name + seq![':'] + rest) is None,
{
    let s = name + seq![':'] + rest;
    assert(forall|j: int| 0 <= j < name.len() ==> s[j] == name[j]);
    text::lemma_find_unique(s, ':', name.len() as int);
    assert(s.take(name.len() as int) =~= name);
    assert(!text::is_space(name[0]) && !text::is_space(name[name.len() - 1]));
    assert(text::trim(name) == name);
    assert(text::lower_all(name).len() != text::lower_all("content-length"@).len());
}

/// The line that a response declares its length in.
proof fn lemma_length_header(len: nat)
    requires
        len <= usize::MAX,
    ensures
        declared_length("Content-Length"@ + seq![':', ' '] + text::decimal(len)) == Some(len),
{
    reveal_strlit("Content-Length");
    reveal_strlit("content-length");
    text::lemma_decimal_digits(len);
    let name = "Content-Length"@;
    let digits = text::decimal(len);
    let s = name + seq![':', ' '] + digits;
    assert(forall|j: int| 0 <= j < name.len() ==> s[j] == name[j]);
    text::lemma_find_unique(s, ':', name.len() as int);
    assert(s.take(name.len() as int) =~= name);
    assert(s.skip(name.len() as int + 1) =~= seq![' '] + digits);
    assert(text::trim(name) == name);
    let value = seq![' '] + digits;
    assert(value.skip(1) =~= digits);
    assert(!text::is_space(digits[0]));
    assert(!text::is_space(digits[digits.len() - 1]));
    assert(text::trim_start(value) == text::trim_start(digits));
    assert(text::trim(value) == digits);
    assert(text::lower_all(name) =~= "content-length"@);
    assert(text::lower_all("content-length"@) =~= "content-length"@);
}

/// What follows the content type in a response.
spec fn response_tail() -> Seq<Seq<char>> {
    seq![
        "Cache-Control: no-store, no-cache, must-revalidate, max-age=0"@,
        "Pragma: no-cache"@,
        "Expires: 0"@,
        "Connection: close"@,
    ]
}

/// Whether a line is not empty, is one line of ASCII, and declares no length.
spec fn other_line(line: Seq<char>) -> bool {
    &&& line.len() > 0
    &&& text::on_one_line(line)
    &&& utf8::is_ascii_chars(line)
    &&& declared_length(line) is None
}

#[verifier::spinoff_prover]
#[verifier::rlimit(40)]
proof fn lemma_cache_control_line()
    ensures
        other_line("Cache-Control: no-store, no-cache, must-revalidate, max-age=0"@),
{
    reveal_strlit("content-length");
    reveal_strlit("Cache-Control: no-store, no-cache, must-revalidate, max-age=0");
    reveal_strlit("Cache-Control");
    let line = "Cache-Control: no-store, no-cache, must-revalidate, max-age=0"@;
    let rest = line.skip(14);
    assert(line =~= "Cache-Control"@ + seq![':'] + rest);
    lemma_other_header("Cache-Control"@, rest);
}

proof fn lemma_pragma_line()
    ensures
        other_line("Pragma: no-cache"@),
{
    reveal_strlit("content-length");
    reveal_strlit("Pragma: no-cache");
    reveal_strlit("Pragma");
    let line = "Pragma: no-cache"@;
    let rest = line.skip(7);
    assert(line =~= "Pragma"@ + seq![':'] + rest);
    lemma_other_header("Pragma"@, rest);
}

proof fn lemma_expires_line()
    ensures
        other_line("Expires: 0"@),
{
    reveal_strlit("content-length");
    reveal_strlit("Expires: 0");
    reveal_strlit("Expires");
    let line = "Expires: 0"@;
    let rest = line.skip(8);
    assert(line =~= "Expires"@ + seq![':'] + rest);
    lemma_other_header("Expires"@, rest);
}

proof fn lemma_connection_line()
    ensures
        other_line("Connection: close"@),
{
    reveal_strlit("content-length");
    reveal_strlit("Connection: close");
    reveal_strlit("Connection");
    let line = "Connection: close"@;
    let rest = line.skip(11);
    assert(line =~= "Connection"@ + seq![':'] + rest);
    lemma_other_header("Connection"@, rest);
}

/// The lines behind the content type: none is empty, and none declares a length.
proof fn lemma_tail_lines(i: int)
    requires
        0 <= i < 4,
    ensures
        other_line(response_tail()[i]),
{
    lemma_cache_control_line();
    lemma_pragma_line();
    lemma_expires_line();
    lemma_connection_line();
}

/// The first line of a response.
spec fn status_line(status: u16) -> Seq<char> {
    "HTTP/1.1 "@ + text::decimal(status as nat) + " "@ + reason(status)
}

proof fn lemma_status_line(status: u16)
    ensures
        status_line(status).len() > 0,
        text::on_one_line(status_line(status)),
        utf8::is_ascii_chars(status_line(status)),
{
    text::lemma_decimal_digits(status as nat);
    reveal_strlit("HTTP/1.1 ");
    reveal_strlit(" ");
    reveal_strlit("OK");
    reveal_strlit("Created");
    reveal_strlit("No Content");
    reveal_strlit("Partial Content");
    reveal_strlit("Not Modified");
    reveal_strlit("Bad Request");
    reveal_strlit("Not Found");
    reveal_strlit("Method Not Allowed");
    reveal_strlit("Range Not Satisfiable");
    reveal_strlit("Internal Server Error");
    reveal_strlit("Unknown");
    let d = text::decimal(status as nat);
    let s = status_line(status);
    assert(utf8::is_ascii_chars(reason(status)) && text::on_one_line(reason(status)));
    assert forall|i: int| 0 <= i < s.len() implies '\0' <= #[trigger] s[i] <= '\u{7f}' && s[i]
        != '\r' by {
        let n = "HTTP/1.1 "@.len();
        if n <= i < n + d.len() {
            assert(s[i] == d[i - n]);
        } else if i > n + d.len() {
            assert(s[i] == reason(status)[i - n - d.len() - 1]);
        }
    }
}

/// The content type of a response, as it is seen.
spec fn type_line(content_type: Seq<char>) -> Seq<char> {
    "Content-Type"@ + seq![':', ' '] + text::latin1(utf8::encode_utf8(content_type))
}

proof fn lemma_type_line(content_type: Seq<char>)
    requires
        text::on_one_line(content_type),
    ensures
        type_line(content_type).len() > 0,
        text::on_one_line(type_line(content_type)),
        declared_length(type_line(content_type)) is None,
{
    reveal_strlit("Content-Type");
    reveal_strlit("content-length");
    text::lemma_bytes_on_one_line(content_type);
    let rest = seq![' '] + text::latin1(utf8::encode_utf8(content_type));
    assert(type_line(content_type) =~= "Content-Type"@ + seq![':'] + rest);
    lemma_other_header("Content-Type"@, rest);
}

/// The line that a response declares its length in.
spec fn length_line(len: nat) -> Seq<char> {
    "Content-Length"@ + seq![':', ' '] + text::decimal(len)
}

proof fn lemma_length_line(len: nat)
    ensures
        length_line(len).len() > 0,
        text::on_one_line(length_line(len)),
        utf8::is_ascii_chars(length_line(len)),
{
    reveal_strlit("Content-Length");
    text::lemma_decimal_digits(len);
    let d = text::decimal(len);
    let s = length_line(len);
    let n = "Content-Length"@.len() + 2;
    assert forall|i: int| 0 <= i < s.len() implies '\0' <= #[trigger] s[i] <= '\u{7f}' && s[i]
        != '\r' by {
        if n <= i {
            assert(s[i] == d[i - n]);
        }
    }
}

/// The end of the head of a response, behind the content type.
spec fn response_end() -> Seq<char> {
    let crlf = seq!['\r', '\n'];
    let t = response_tail();
    let none = Seq::<char>::empty();
    t[0] + crlf + (t[1] + crlf + (t[2] + crlf + (t[3] + crlf + (none + crlf + none))))
}

/// The head of a response, line by line.
proof fn lemma_head_text(status: u16, content_type: Seq<char>, len: nat)
    ensures
        response_head(status, content_type, len) == status_line(status) + seq!['\r', '\n']
            + length_line(len) + seq!['\r', '\n'] + ("Content-Type"@ + seq![':', ' '])
            + content_type + seq!['\r', '\n'] + response_end(),
        utf8::is_ascii_chars(response_end()),
{
    reveal_strlit("\r\nContent-Length: ");
    reveal_strlit("Content-Length");
    reveal_strlit("\r\nContent-Type: ");
    reveal_strlit("Content-Type");
    reveal_strlit(
        "\r\nCache-Control: no-store, no-cache, must-revalidate, max-age=0\r\nPragma: no-cache\r\nExpires: 0\r\nConnection: close\r\n\r\n",
    );
    reveal_strlit("Cache-Control: no-store, no-cache, must-revalidate, max-age=0");
    reveal_strlit("Pragma: no-cache");
    reveal_strlit("Expires: 0");
    reveal_strlit("Connection: close");
    let crlf = seq!['\r', '\n'];
    let last =
        "\r\nCache-Control: no-store, no-cache, must-revalidate, max-age=0\r\nPragma: no-cache\r\nExpires: 0\r\nConnection: close\r\n\r\n"@;
    assert(last =~= crlf + response_end());
    assert("\r\nContent-Length: "@ =~= crlf + ("Content-Length"@ + seq![':', ' ']));
    assert("\r\nContent-Type: "@ =~= crlf + ("Content-Type"@ + seq![':', ' ']));
    assert(response_head(status, content_type, len) =~= status_line(status) + crlf + length_line(
        len,
    ) + crlf + ("Content-Type"@ + seq![':', ' ']) + content_type + crlf + response_end());
}

/// The lines of the head of a response, as they are seen.
#[verifier::spinoff_prover]
proof fn lemma_response_lines(status: u16, content_type: Seq<char>, len: nat)
    requires
        text::on_one_line(content_type),
    ensures
        text::lines(text::latin1(utf8::encode_utf8(response_head(status, content_type, len))))
            == seq![status_line(status), length_line(len), type_line(content_type)]
            + response_tail() + seq![Seq::<char>::empty(), Seq::<char>::empty()],
{
    let crlf = seq!['\r', '\n'];
    let none = Seq::<char>::empty();
    let a = status_line(status);
    let b = length_line(len);
    let name = "Content-Type"@ + seq![':', ' '];
    let c = type_line(content_type);
    let t = response_tail();
    lemma_head_text(status, content_type, len);
    lemma_status_line(status);
    lemma_length_line(len);
    lemma_type_line(content_type);
    assert(utf8::is_ascii_chars(name)) by {
        reveal_strlit("Content-Type");
    }
    let front = a + crlf + b + crlf + name;
    assert(utf8::is_ascii_chars(front));
    let back = crlf + response_end();
    assert(utf8::is_ascii_chars(back));
    let all = response_head(status, content_type, len);
    assert(all =~= front + (content_type + back));
    text::lemma_seen_concat(front, content_type + back);
    text::lemma_seen_concat(content_type, back);
    text::lemma_latin1_ascii(front);
    text::lemma_latin1_ascii(back);
    let seen = text::latin1(utf8::encode_utf8(all));
    assert(seen =~= a + crlf + (b + crlf + (c + crlf + response_end())));
    text::lemma_lines_concat(a, b + crlf + (c + crlf + response_end()));
    text::lemma_lines_concat(b, c + crlf + response_end());
    text::lemma_lines_concat(c, response_end());
    lemma_tail_lines(0);
    lemma_tail_lines(1);
    lemma_tail_lines(2);
    lemma_tail_lines(3);
    text::lemma_lines_concat(
        t[0],
        t[1] + crlf + (t[2] + crlf + (t[3] + crlf + (none + crlf + none))),
    );
    text::lemma_lines_concat(t[1], t[2] + crlf + (t[3] + crlf + (none + crlf + none)));
    text::lemma_lines_concat(t[2], t[3] + crlf + (none + crlf + none));
    text::lemma_lines_concat(t[3], none + crlf + none);
    text::lemma_lines_concat(none, none);
    text::lemma_one_line(a);
    text::lemma_one_line(b);
    text::lemma_one_line(c);
    text::lemma_one_line(t[0]);
    text::lemma_one_line(t[1]);
    text::lemma_one_line(t[2]);
    text::lemma_one_line(t[3]);
    text::lemma_one_line(none);
    assert(text::lines(seen) =~= seq![a, b, c] + t + seq![none, none]);
}

/// A head that ends in an empty line ends there whatever follows.
proof fn lemma_head_in_front(head: Seq<u8>, rest: Seq<u8>)
    requires
        is_head_end(head, head.len() as int),
        text_size(head.take(head.len() - 1)) <= HEAD_LIMIT,
    ensures
        head_of(head + rest) == Some(head),
{
    let all = head + rest;
    let n = head.len() as int;
    assert forall|m: int| m <= n implies empty_line_at(all, m) == empty_line_at(head, m) by {}
    assert(is_head_end(all, n));
    let o = choose|o: int| is_head_end(all, o);
    lemma_head_end_unique(all, o, n);
    assert(all.take(n) =~= head);
    assert(all.take(n - 1) =~= head.take(n - 1));
}

/// A response is read as it was written: its head ends before its body, whatever the body holds,
/// and declares exactly the length of the body. The content type holds no line end, and the head is
/// within the limit.
pub proof fn responses_say_their_length(status: u16, content_type: Seq<char>, body: Seq<u8>)
    requires
        text::on_one_line(content_type),
        body.len() <= usize::MAX,
        ({
            let head = utf8::encode_utf8(response_head(status, content_type, body.len()));
            text_size(head.take(head.len() - 1)) <= HEAD_LIMIT
        }),
    ensures
        ({
            let head = utf8::encode_utf8(response_head(status, content_type, body.len()));
            &&& head_of(response(status, content_type, body)) == Some(head)
            &&& body_length(text::lines(text::latin1(head)).skip(1)) == body.len()
        }),
{
    let len = body.len();
    let none = Seq::<char>::empty();
    let head = utf8::encode_utf8(response_head(status, content_type, len));
    let a = status_line(status);
    let b = length_line(len);
    let c = type_line(content_type);
    let t = response_tail();
    lemma_response_lines(status, content_type, len);
    lemma_status_line(status);
    lemma_length_line(len);
    lemma_length_header(len);
    lemma_type_line(content_type);
    lemma_tail_lines(0);
    lemma_tail_lines(1);
    lemma_tail_lines(2);
    lemma_tail_lines(3);
    let ls = text::lines(text::latin1(head));
    let used = seq![a, b, c] + t;
    assert(ls =~= used.push(none).push(none));
    assert forall|i: int| 0 <= i < used.len() implies (#[trigger] used[i]).len() > 0 by {}
    lemma_response_ends(status, content_type, len);
    lemma_head_whole(head, used);
    lemma_head_in_front(head, body);
    let hs = ls.skip(1);
    assert(hs =~= seq![b, c, t[0], t[1], t[2], t[3], none, none]);
    text::lemma_find(none, ':');
    assert(declared_length(none) is None);
    let h7 = hs.drop_last();
    let h6 = h7.drop_last();
    let h5 = h6.drop_last();
    let h4 = h5.drop_last();
    let h3 = h4.drop_last();
    let h2 = h3.drop_last();
    let h1 = h2.drop_last();
    assert(h1 =~= seq![b]);
    assert(body_length(h1) == len);
    assert(h2.last() == c && body_length(h2) == len);
    assert(h3.last() == t[0] && body_length(h3) == len);
    assert(h4.last() == t[1] && body_length(h4) == len);
    assert(h5.last() == t[2] && body_length(h5) == len);
    assert(h6.last() == t[3] && body_length(h6) == len);
    assert(h7.last() == none && body_length(h7) == len);
}

/// The head of a response ends in an empty line.
proof fn lemma_response_ends(status: u16, content_type: Seq<char>, len: nat)
    ensures
        ({
            let head = utf8::encode_utf8(response_head(status, content_type, len));
            empty_line_at(head, head.len() as int)
        }),
{
    let all = response_head(status, content_type, len);
    let tail = seq!['\r', '\n', '\r', '\n'];
    let front = all.take(all.len() - 4);
    assert(all =~= front + tail) by {
        reveal_strlit(
            "\r\nCache-Control: no-store, no-cache, must-revalidate, max-age=0\r\nPragma: no-cache\r\nExpires: 0\r\nConnection: close\r\n\r\n",
        );
    }
    lemma_ends_in_empty_line(front);
}

/// Whatever comes before, two line ends are an empty line.
pub proof fn lemma_ends_in_empty_line(front: Seq<char>)
    ensures
        ({
            let b = utf8::encode_utf8(front + seq!['\r', '\n', '\r', '\n']);
            empty_line_at(b, b.len() as int)
        }),
{
    let tail = seq!['\r', '\n', '\r', '\n'];
    text::lemma_encode_concat(front, tail);
    assert(utf8::is_ascii_chars(tail));
    utf8::is_ascii_chars_encode_utf8(tail);
    let t = utf8::encode_utf8(tail);
    assert(tail[0] as u8 == t[0] && tail[1] as u8 == t[1] && tail[2] as u8 == t[2] && tail[3] as u8
        == t[3]);
}

// ---------------------------------------------------------------------------
// Slices

/// `n`, moved into the range from 0 to `hi`.
pub open spec fn clamped(n: int, hi: int) -> int {
    if n < 0 {
        0
    } else if n > hi {
        hi
    } else {
        n
    }
}

/// The bytes of `body` from `off` on, `len` of them, as far as there are any.
pub open spec fn slice_of(body: Seq<u8>, off: int, len: int) -> Seq<u8> {
    let start = clamped(off, body.len() as int);
    let end = clamped(start + if len > 0 {
        len
    } else {
        0
    }, body.len() as int);
    body.subrange(start, end)
}

/// Cuts `len` bytes out of `body`, from `off` on, clamped to what is there.
pub fn n_tcp_slice(body: &[u8], off: i64, len: i64) -> (r: Vec<u8>)
    ensures
        r@ == slice_of(body@, off as int, len as int),
{
    let n: usize = body.len();
    let start: usize = if off <= 0 {
        0
    } else if off as u64 >= n as u64 {
        n
    } else {
        off as usize
    };
    let end: usize = if len <= 0 {
        start
    } else if len as u64 >= (n - start) as u64 {
        n
    } else {
        start + len as usize
    };
    let mut r: Vec<u8> = Vec::new();
    append_bytes(&mut r, slice_subrange(body, start, end));
    assert(r@ =~= body@.subrange(start as int, end as int));
    r
}

/// Two slices that meet make up the body, and a slice past its end is empty: nothing is lost,
/// whatever the bytes are.
pub proof fn slices_make_up_the_body(body: Seq<u8>, cut: int, past: int, len: int)
    requires
        0 <= cut <= body.len(),
        past >= body.len(),
    ensures
        slice_of(body, 0, cut) + slice_of(body, cut, body.len() - cut) == body,
        slice_of(body, 0, cut).len() == cut,
        slice_of(body, past, len) == Seq::<u8>::empty(),
{
    assert(slice_of(body, 0, cut) + slice_of(body, cut, body.len() - cut) =~= body);
    assert(slice_of(body, past, len) =~= Seq::<u8>::empty());
}

// ---------------------------------------------------------------------------
// Laws

/// The size of bytes: one for each, and one more for each that is outside ASCII.
pub proof fn sizes_count_every_byte(bytes: Seq<u8>)
    ensures
        text_size(bytes) == bytes.len() + bytes.filter(|b: u8| b >= 128).len(),
    decreases bytes.len(),
{
    reveal(Seq::filter);
    if bytes.len() > 0 {
        sizes_count_every_byte(bytes.drop_last());
    }
}

/// A head ends with the first empty line, whatever follows: it is read where its size, but for the
/// last byte, is at most 16384, and given up on where it is more. Without an empty line there is no
/// head.
pub proof fn heads_end_at_the_first_empty_line(head: Seq<u8>, rest: Seq<u8>)
    requires
        forall|m: int|
            #![trigger head[m]]
            0 <= m && m + 4 < head.len() ==> !(head[m] == 13 && head[m + 1] == 10 && head[m + 2]
                == 13 && head[m + 3] == 10),
    ensures
        ({
            let n = head.len() as int;
            if n >= 4 && head[n - 4] == 13 && head[n - 3] == 10 && head[n - 2] == 13 && head[n - 1]
                == 10 {
                head_of(head + rest) == if text_size(head.take(n - 1)) <= 16384 {
                    Some(head)
                } else {
                    None
                }
            } else {
                head_of(head) is None
            }
        }),
{
    let n = head.len() as int;
    let all = head + rest;
    assert forall|m: int| 0 <= m < n implies !empty_line_at(head, m) by {
        if m >= 4 {
            assert(head[m - 4] == head[m - 4]);
        }
    }
    if n >= 4 && head[n - 4] == 13 && head[n - 3] == 10 && head[n - 2] == 13 && head[n - 1] == 10 {
        assert(is_head_end(head, n));
        assert forall|m: int| m <= n implies empty_line_at(all, m) == empty_line_at(head, m) by {}
        assert(is_head_end(all, n));
        let o = choose|o: int| is_head_end(all, o);
        lemma_head_end_unique(all, o, n);
        assert(all.take(n) =~= head);
        assert(all.take(n - 1) =~= head.take(n - 1));
    } else {
        assert forall|m: int| !is_head_end(head, m) by {
            if m == n {
                assert(!empty_line_at(head, m));
            }
        }
    }
}

/// A body is read whole: for every head that declares the length of a text, the request that is read
/// from the head and the text behind it has exactly that text as its body, however long it is. Any
/// other bytes of that length are the body too, and fewer bytes are no request yet.
pub proof fn bodies_are_read_whole(head: Seq<u8>, body: Seq<char>, raw: Seq<u8>, rest: Seq<u8>)
    requires
        is_head_end(head, head.len() as int),
        text_size(head.take(head.len() - 1)) <= HEAD_LIMIT,
        head_view(head) is Some,
    ensures
        ({
            let h = head_view(head)->0;
            let sent = utf8::encode_utf8(body);
            &&& sent.len() == h.content_length ==> request_at(head + sent + rest) == Some(
                (
                    RequestView {
                        method: h.method,
                        path: h.path,
                        headers: h.headers,
                        body,
                    },
                    (head.len() + sent.len()) as int,
                ),
            )
            &&& raw.len() == h.content_length && raw.len() > 0 ==> request_at(head + raw + rest)
                == Some(
                (
                    RequestView {
                        method: h.method,
                        path: h.path,
                        headers: h.headers,
                        body: text::utf8_lossy(raw),
                    },
                    (head.len() + raw.len()) as int,
                ),
            )
            &&& raw.len() < h.content_length ==> request_at(head + raw) is None
        }),
{
    let h = head_view(head)->0;
    let sent = utf8::encode_utf8(body);
    let n = head.len() as int;
    lemma_head_in_front(head, sent + rest);
    lemma_head_in_front(head, raw + rest);
    lemma_head_in_front(head, raw);
    assert(head + sent + rest =~= head + (sent + rest));
    assert(head + raw + rest =~= head + (raw + rest));
    assert((head + sent + rest).subrange(n, n + sent.len()) =~= sent);
    assert((head + raw + rest).subrange(n, n + raw.len()) =~= raw);
    text::lemma_lossless(body);
    if sent.len() == 0 && body.len() > 0 {
        utf8::encode_utf8_decode_utf8(body);
        utf8::encode_utf8_decode_utf8(Seq::<char>::empty());
        assert(sent =~= utf8::encode_utf8(Seq::<char>::empty()));
    }
    if sent.len() == 0 {
        assert(body =~= Seq::<char>::empty());
    }
}

/// Lines, each with `end` behind it.
pub open spec fn each_ended(ls: Seq<Seq<char>>, end: Seq<char>) -> Seq<char>
    decreases ls.len(),
{
    if ls.len() == 0 {
        Seq::empty()
    } else {
        each_ended(ls.drop_last(), end) + ls.last() + end
    }
}

/// Lines that are written out come back as lines.
proof fn lemma_lines_ended(ls: Seq<Seq<char>>, tail: Seq<char>)
    requires
        forall|i: int| 0 <= i < ls.len() ==> text::on_one_line(#[trigger] ls[i]),
    ensures
        text::lines(each_ended(ls, seq!['\r', '\n']) + tail) == ls + text::lines(tail),
    decreases ls.len(),
{
    let crlf = seq!['\r', '\n'];
    if ls.len() > 0 {
        let front = ls.drop_last();
        let last = ls.last();
        assert(last == ls[ls.len() - 1]);
        assert forall|i: int| 0 <= i < front.len() implies text::on_one_line(
            #[trigger] front[i],
        ) by {
            assert(front[i] == ls[i]);
        }
        lemma_lines_ended(front, last + crlf + tail);
        assert(each_ended(ls, crlf) + tail =~= each_ended(front, crlf) + (last + crlf + tail));
        text::lemma_lines_concat(last, tail);
        text::lemma_one_line(last);
        assert(front + (seq![last] + text::lines(tail)) =~= ls + text::lines(tail));
    } else {
        assert(each_ended(ls, crlf) + tail =~= tail);
        assert(ls + text::lines(tail) =~= text::lines(tail));
    }
}

/// Lines that are ASCII make a text that is ASCII.
proof fn lemma_ended_ascii(ls: Seq<Seq<char>>, end: Seq<char>)
    requires
        forall|i: int| 0 <= i < ls.len() ==> utf8::is_ascii_chars(#[trigger] ls[i]),
        utf8::is_ascii_chars(end),
    ensures
        utf8::is_ascii_chars(each_ended(ls, end)),
    decreases ls.len(),
{
    if ls.len() > 0 {
        let front = ls.drop_last();
        assert forall|i: int| 0 <= i < front.len() implies utf8::is_ascii_chars(
            #[trigger] front[i],
        ) by {
            assert(front[i] == ls[i]);
        }
        lemma_ended_ascii(front, end);
        assert(utf8::is_ascii_chars(ls[ls.len() - 1]));
    }
}

/// The header lines of a request are all kept, in order, each with a line feed behind it; empty lines
/// are left out.
pub proof fn header_lines_are_kept(ls: Seq<Seq<char>>)
    requires
        forall|i: int| 0 <= i < ls.len() ==> (#[trigger] ls[i]).len() > 0,
    ensures
        header_block(ls) == each_ended(ls, seq!['\n']),
        header_block(ls.push(Seq::<char>::empty()).push(Seq::<char>::empty())) == each_ended(
            ls,
            seq!['\n'],
        ),
    decreases ls.len(),
{
    let none = Seq::<char>::empty();
    assert(ls.push(none).drop_last() =~= ls);
    assert(ls.push(none).push(none).drop_last() =~= ls.push(none));
    if ls.len() > 0 {
        let front = ls.drop_last();
        assert forall|i: int| 0 <= i < front.len() implies (#[trigger] front[i]).len() > 0 by {
            assert(front[i] == ls[i]);
        }
        assert(ls[ls.len() - 1].len() > 0);
        header_lines_are_kept(front);
    }
    assert(header_block(ls.push(none)) == header_block(ls));
}

/// A header declares a length where its name is `Content-Length`, in any case and with any white
/// space around it: the number that is its value, or 0 where that is none or above what there can
/// be. A line of another name, or without a colon, declares none.
pub proof fn lengths_are_declared_by_name(
    a: Seq<char>,
    name: Seq<char>,
    b: Seq<char>,
    c: Seq<char>,
    value: Seq<char>,
    d: Seq<char>,
)
    requires
        forall|i: int| 0 <= i < a.len() ==> text::is_space(#[trigger] a[i]),
        forall|i: int| 0 <= i < b.len() ==> text::is_space(#[trigger] b[i]),
        forall|i: int| 0 <= i < c.len() ==> text::is_space(#[trigger] c[i]),
        forall|i: int| 0 <= i < d.len() ==> text::is_space(#[trigger] d[i]),
        forall|i: int| 0 <= i < name.len() ==> name[i] != ':',
        name.len() > 0 && !text::is_space(name[0]) && !text::is_space(name.last()),
        value.len() > 0 ==> !text::is_space(value[0]) && !text::is_space(value.last()),
    ensures
        declared_length(a + name + b + seq![':'] + c + value + d) == (if text::lower_all(name)
            == "content-length"@ {
            match text::parse_number(value, usize::MAX as nat) {
                Some(n) => Some(n),
                None => Some(0nat),
            }
        } else {
            None
        }),
        declared_length(a + name + b) is None,
{
    let key = a + name + b;
    let tail = c + value + d;
    assert forall|i: int| 0 <= i < key.len() implies key[i] != ':' by {
        if i < a.len() {
            assert(text::is_space(a[i]));
        } else if i < a.len() + name.len() {
            assert(key[i] == name[i - a.len()]);
        } else {
            assert(text::is_space(b[i - a.len() - name.len()]));
        }
    }
    assert(a + name + b + seq![':'] + c + value + d =~= key + seq![':'] + tail);
    text::texts_are_cut_whole(key, ':', tail);
    text::lemma_trim_between(a, name, b);
    text::trimming_leaves_the_text(c, value, d);
    assert(text::lower_all("content-length"@) =~= "content-length"@) by {
        reveal_strlit("content-length");
    }
}

/// The last length that is declared counts, and lines that declare none change nothing.
pub proof fn the_last_length_counts(
    before: Seq<Seq<char>>,
    line: Seq<char>,
    behind: Seq<Seq<char>>,
)
    requires
        declared_length(line) is Some,
        forall|i: int| 0 <= i < behind.len() ==> declared_length(#[trigger] behind[i]) is None,
    ensures
        body_length(before.push(line) + behind) == declared_length(line)->0,
        body_length(behind) == 0,
    decreases behind.len(),
{
    let all = before.push(line) + behind;
    if behind.len() > 0 {
        assert(all.drop_last() =~= before.push(line) + behind.drop_last());
        assert(all.last() == behind[behind.len() - 1]);
        assert(behind.last() == behind[behind.len() - 1]);
        assert forall|i: int| 0 <= i < behind.drop_last().len() implies declared_length(
            #[trigger] behind.drop_last()[i],
        ) is None by {
            assert(behind.drop_last()[i] == behind[i]);
        }
        the_last_length_counts(before, line, behind.drop_last());
    } else {
        assert(all =~= before.push(line));
    }
}

/// A request is read as it was written: its method, its path, every header line, and the whole of
/// its body, whatever follows it on the wire.
pub proof fn requests_read_back(
    method: Seq<char>,
    path: Seq<char>,
    version: Seq<char>,
    headers: Seq<Seq<char>>,
    body: Seq<char>,
    rest: Seq<u8>,
)
    requires
        method.len() > 0,
        utf8::is_ascii_chars(method),
        forall|i: int| 0 <= i < method.len() ==> !text::is_space(#[trigger] method[i]),
        path.len() > 0,
        utf8::is_ascii_chars(path),
        forall|i: int| 0 <= i < path.len() ==> !text::is_space(#[trigger] path[i]),
        utf8::is_ascii_chars(version),
        text::on_one_line(version),
        forall|i: int|
            0 <= i < headers.len() ==> (#[trigger] headers[i]).len() > 0 && utf8::is_ascii_chars(
                headers[i],
            ) && text::on_one_line(headers[i]),
        utf8::encode_utf8(body).len() <= usize::MAX,
        ({
            let ls = seq![method + seq![' '] + path + seq![' '] + version] + headers.push(
                "Content-Length: "@ + text::decimal(utf8::encode_utf8(body).len()),
            );
            each_ended(ls, seq!['\r', '\n']).len() + 1 <= 16384
        }),
    ensures
        ({
            let sent = utf8::encode_utf8(body);
            let hs = headers.push("Content-Length: "@ + text::decimal(sent.len()));
            let ls = seq![method + seq![' '] + path + seq![' '] + version] + hs;
            let wire = utf8::encode_utf8(
                each_ended(ls, seq!['\r', '\n']) + seq!['\r', '\n'],
            );
            request_at(wire + sent + rest) == Some(
                (
                    RequestView { method, path, headers: each_ended(hs, seq!['\n']), body },
                    (wire.len() + sent.len()) as int,
                ),
            )
        }),
{
    let sent = utf8::encode_utf8(body);
    let n = sent.len();
    let crlf = seq!['\r', '\n'];
    let none = Seq::<char>::empty();
    let line = "Content-Length: "@ + text::decimal(n);
    let first = method + seq![' '] + path + seq![' '] + version;
    let hs = headers.push(line);
    let ls = seq![first] + hs;
    let all = each_ended(ls, crlf) + crlf;
    let head = utf8::encode_utf8(all);
    lemma_length_line(n);
    lemma_length_header(n);
    assert(line =~= length_line(n)) by {
        reveal_strlit("Content-Length: ");
        reveal_strlit("Content-Length");
    }
    assert(text::on_one_line(first)) by {
        assert forall|i: int| 0 <= i < first.len() implies first[i] != '\r' by {
            let m = method.len();
            let p = path.len();
            if i < m {
                assert(!text::is_space(method[i]));
            } else if m < i < m + 1 + p {
                assert(first[i] == path[i - m - 1]);
                assert(!text::is_space(path[i - m - 1]));
            } else if i > m + 1 + p {
                assert(first[i] == version[i - m - p - 2]);
            }
        }
    }
    assert forall|i: int| 0 <= i < ls.len() implies (#[trigger] ls[i]).len() > 0
        && utf8::is_ascii_chars(ls[i]) && text::on_one_line(ls[i]) by {
        if 0 < i < ls.len() - 1 {
            assert(ls[i] == headers[i - 1]);
        }
    }
    assert(all =~= each_ended(ls, crlf) + (none + crlf + none));
    lemma_lines_ended(ls, none + crlf + none);
    text::lemma_lines_concat(none, none);
    text::lemma_one_line(none);
    lemma_ended_ascii(ls, crlf);
    assert(utf8::is_ascii_chars(all));
    text::lemma_latin1_ascii(all);
    let seen = text::lines(all);
    assert(seen =~= ls.push(none).push(none));
    let front = all.take(all.len() - 4);
    assert(all =~= front + seq!['\r', '\n', '\r', '\n']) by {
        let e = each_ended(ls, crlf);
        assert(e.len() >= 2 && e[e.len() - 2] == '\r' && e[e.len() - 1] == '\n');
    }
    lemma_ends_in_empty_line(front);
    lemma_head_whole(head, ls);
    utf8::is_ascii_chars_encode_utf8(all);
    lemma_ascii_size(all);
    let rest_words = seq![' '] + path + seq![' '] + version;
    text::words_stand_between_white_space(none, method, rest_words);
    text::words_stand_between_white_space(seq![' '], path, seq![' '] + version);
    assert(first =~= none + method + rest_words);
    assert(rest_words =~= seq![' '] + path + (seq![' '] + version));
    assert(seen[0] == first);
    assert(seen.skip(1) =~= hs.push(none).push(none));
    assert forall|i: int| 0 <= i < hs.len() implies (#[trigger] hs[i]).len() > 0 by {
        assert(hs[i] == ls[i + 1]);
    }
    header_lines_are_kept(hs);
    text::lemma_find(none, ':');
    let blank = seq![none, none];
    assert forall|i: int| 0 <= i < blank.len() implies declared_length(
        #[trigger] blank[i],
    ) is None by {}
    the_last_length_counts(headers, line, blank);
    assert(hs.push(none).push(none) =~= headers.push(line) + blank);
    bodies_are_read_whole(head, body, sent, rest);
}

/// An ASCII text is as large as it is long.
proof fn lemma_ascii_size(s: Seq<char>)
    requires
        utf8::is_ascii_chars(s),
        s.len() > 0,
    ensures
        ({
            let b = utf8::encode_utf8(s);
            b.len() == s.len() && text_size(b.take(b.len() - 1)) == s.len() - 1
        }),
{
    utf8::is_ascii_chars_encode_utf8(s);
    let b = utf8::encode_utf8(s);
    assert forall|i: int| 0 <= i < b.len() implies b[i] < 128 by {
        assert(s[i] as u8 == b[i]);
    }
    lemma_small_bytes(b.take(b.len() - 1));
}

proof fn lemma_small_bytes(b: Seq<u8>)
    requires
        forall|i: int| 0 <= i < b.len() ==> b[i] < 128,
    ensures
        text_size(b) == b.len(),
    decreases b.len(),
{
    if b.len() > 0 {
        lemma_small_bytes(b.drop_last());
    }
}

/// A response is its head and then every byte of its body, nothing left out and nothing added.
pub proof fn responses_carry_their_body(status: u16, content_type: Seq<char>, body: Seq<u8>)
    ensures
        ({
            let head = utf8::encode_utf8(response_head(status, content_type, body.len()));
            let r = response(status, content_type, body);
            r.take(head.len() as int) == head && r.skip(head.len() as int) == body
        }),
{
    let head = utf8::encode_utf8(response_head(status, content_type, body.len()));
    let r = response(status, content_type, body);
    assert(r.take(head.len() as int) =~= head);
    assert(r.skip(head.len() as int) =~= body);
}

/// The head of a response, line by line: the status with its phrase, the length of the body, its
/// type, that it is never to be cached, that the connection closes, and an empty line at the end.
pub proof fn responses_say_what_they_hold(status: u16, content_type: Seq<char>, len: nat)
    ensures
        response_head(status, content_type, len) == each_ended(
            seq![
                "HTTP/1.1 "@ + text::decimal(status as nat) + " "@ + reason(status),
                "Content-Length: "@ + text::decimal(len),
                "Content-Type: "@ + content_type,
                "Cache-Control: no-store, no-cache, must-revalidate, max-age=0"@,
                "Pragma: no-cache"@,
                "Expires: 0"@,
                "Connection: close"@,
                Seq::<char>::empty(),
            ],
            seq!['\r', '\n'],
        ),
{
    let crlf = seq!['\r', '\n'];
    let none = Seq::<char>::empty();
    let t = response_tail();
    let a = status_line(status);
    let b = length_line(len);
    let c = "Content-Type: "@ + content_type;
    lemma_head_text(status, content_type, len);
    assert(b =~= "Content-Length: "@ + text::decimal(len)) by {
        reveal_strlit("Content-Length: ");
        reveal_strlit("Content-Length");
    }
    assert(c =~= "Content-Type"@ + seq![':', ' '] + content_type) by {
        reveal_strlit("Content-Type: ");
        reveal_strlit("Content-Type");
    }
    let ls = seq![a, b, c] + t;
    lemma_seven_ended(a, b, c);
    assert(response_head(status, content_type, len) =~= each_ended(ls, crlf) + (none + crlf
        + none));
    lemma_ended_push(ls, none, crlf);
    assert(each_ended(ls, crlf) + none + crlf =~= each_ended(ls, crlf) + (none + crlf + none));
    assert(ls.push(none) =~= seq![a, b, c, t[0], t[1], t[2], t[3], none]);
}

/// The lines of a response, written out.
proof fn lemma_seven_ended(a: Seq<char>, b: Seq<char>, c: Seq<char>)
    ensures
        ({
            let crlf = seq!['\r', '\n'];
            let none = Seq::<char>::empty();
            each_ended(seq![a, b, c] + response_tail(), crlf) + (none + crlf + none) == a + crlf + b
                + crlf + c + crlf + response_end()
        }),
{
    let crlf = seq!['\r', '\n'];
    let none = Seq::<char>::empty();
    let t = response_tail();
    let l7 = seq![a, b, c] + t;
    let l6 = l7.drop_last();
    let l5 = l6.drop_last();
    let l4 = l5.drop_last();
    let l3 = l4.drop_last();
    let l2 = l3.drop_last();
    let l1 = l2.drop_last();
    let l0 = l1.drop_last();
    assert(l7.last() == t[3] && l6.last() == t[2] && l5.last() == t[1] && l4.last() == t[0]);
    assert(l3.last() == c && l2.last() == b && l1.last() == a && l0.len() == 0);
    assert(each_ended(l0, crlf) == none);
    assert(each_ended(l1, crlf) =~= a + crlf);
    assert(each_ended(l2, crlf) =~= a + crlf + b + crlf);
    assert(each_ended(l3, crlf) =~= a + crlf + b + crlf + c + crlf);
    assert(each_ended(l4, crlf) =~= each_ended(l3, crlf) + t[0] + crlf);
    assert(each_ended(l5, crlf) =~= each_ended(l4, crlf) + t[1] + crlf);
    assert(each_ended(l6, crlf) =~= each_ended(l5, crlf) + t[2] + crlf);
    assert(each_ended(l7, crlf) =~= each_ended(l6, crlf) + t[3] + crlf);
    assert(each_ended(l7, crlf) + (none + crlf + none) =~= each_ended(l3, crlf) + response_end());
}

/// Each status has its phrase, and those that are not listed share one.
pub proof fn statuses_have_their_phrase(status: u16)
    ensures
        status == 200 ==> reason(status) == "OK"@,
        status == 201 ==> reason(status) == "Created"@,
        status == 204 ==> reason(status) == "No Content"@,
        status == 206 ==> reason(status) == "Partial Content"@,
        status == 304 ==> reason(status) == "Not Modified"@,
        status == 400 ==> reason(status) == "Bad Request"@,
        status == 404 ==> reason(status) == "Not Found"@,
        status == 405 ==> reason(status) == "Method Not Allowed"@,
        status == 416 ==> reason(status) == "Range Not Satisfiable"@,
        status == 500 ==> reason(status) == "Internal Server Error"@,
        status != 200 && status != 201 && status != 204 && status != 206 && status != 304 && status
            != 400 && status != 404 && status != 405 && status != 416 && status != 500
            ==> reason(status) == "Unknown"@,
{
}

/// A type that is given is used as it is; another only where there is none.
pub proof fn given_types_are_used(given: &str, fallback: Seq<char>)
    ensures
        given@.len() > 0 ==> type_or(Some(given), fallback) == given@,
        given@.len() == 0 ==> type_or(Some(given), fallback) == fallback,
        type_or(None, fallback) == fallback,
{
}

/// A header line of the caller is sent trimmed, on a line of its own behind those before it; a blank
/// one is left out. A line gives a length where it begins with that name and a colon, in any case.
pub proof fn own_lines_are_sent(headers: Seq<char>, line: Seq<char>)
    requires
        forall|i: int| 0 <= i < line.len() ==> line[i] != '\n',
    ensures
        trimmed_block(text::split(line, '\n')) == (if text::trim(line).len() > 0 {
            text::trim(line) + seq!['\r', '\n']
        } else {
            Seq::<char>::empty()
        }),
        trimmed_block(text::split(headers + seq!['\n'] + line, '\n')) == trimmed_block(
            text::split(headers, '\n'),
        ) + (if text::trim(line).len() > 0 {
            text::trim(line) + seq!['\r', '\n']
        } else {
            Seq::<char>::empty()
        }),
        gives_length(line) <==> exists|name: Seq<char>, rest: Seq<char>|
            text::trim(line) == #[trigger] (name + rest) && text::lower_all(name)
                == "content-length:"@,
{
    reveal_strlit("\r\n");
    let crlf = seq!['\r', '\n'];
    assert("\r\n"@ =~= crlf);
    let t = text::trim(line);
    let one = seq![line];
    let before = text::split(headers, '\n');
    text::lemma_one_piece(line, '\n');
    text::lemma_split_concat(headers, '\n', line);
    assert(one.drop_last() =~= Seq::<Seq<char>>::empty());
    assert(trimmed_block(Seq::<Seq<char>>::empty()) =~= Seq::<char>::empty());
    assert(trimmed_block(one) =~= if t.len() > 0 {
        t + crlf
    } else {
        Seq::<char>::empty()
    });
    let both = before + one;
    assert(both.drop_last() =~= before);
    assert(both.last() == line);
    assert(trimmed_block(both) =~= trimmed_block(before) + if t.len() > 0 {
        t + crlf
    } else {
        Seq::<char>::empty()
    });
    let marker = "content-length:"@;
    let low = text::lower_all(t);
    if gives_length(line) {
        let name = t.take(marker.len() as int);
        assert(text::lower_all(name) =~= low.take(marker.len() as int));
        assert(t =~= name + t.skip(marker.len() as int));
    }
    if exists|name: Seq<char>, rest: Seq<char>|
        t == #[trigger] (name + rest) && text::lower_all(name) == marker {
        let (name, rest) = choose|name: Seq<char>, rest: Seq<char>|
            t == #[trigger] (name + rest) && text::lower_all(name) == marker;
        assert(low.take(marker.len() as int) =~= text::lower_all(name));
    }
}

/// The head of a response with the caller's own lines: the status with its phrase, the caller's
/// lines, the length of the body unless one of them gives it, that the connection closes, and an
/// empty line at the end.
pub proof fn own_heads_say_what_they_hold(status: u16, headers: Seq<char>, len: nat)
    ensures
        ({
            let ls = text::split(headers, '\n');
            let given = exists|i: int| 0 <= i < ls.len() && gives_length(#[trigger] ls[i]);
            full_head(status, headers, len) == each_ended(
                seq!["HTTP/1.1 "@ + text::decimal(status as nat) + " "@ + reason(status)],
                seq!['\r', '\n'],
            ) + trimmed_block(ls) + each_ended(
                if given {
                    seq!["Connection: close"@, Seq::<char>::empty()]
                } else {
                    seq![
                        "Content-Length: "@ + text::decimal(len),
                        "Connection: close"@,
                        Seq::<char>::empty(),
                    ]
                },
                seq!['\r', '\n'],
            )
        }),
{
    reveal_strlit("\r\n");
    reveal_strlit("Connection: close\r\n\r\n");
    reveal_strlit("Connection: close");
    let crlf = seq!['\r', '\n'];
    let none = Seq::<char>::empty();
    assert("\r\n"@ =~= crlf);
    let ls = text::split(headers, '\n');
    let a = "HTTP/1.1 "@ + text::decimal(status as nat) + " "@ + reason(status);
    let b = "Content-Length: "@ + text::decimal(len);
    let c = "Connection: close"@;
    lemma_ended_push(Seq::empty(), a, crlf);
    lemma_ended_push(Seq::empty(), b, crlf);
    lemma_ended_push(Seq::empty(), c, crlf);
    lemma_ended_push(seq![b], c, crlf);
    lemma_ended_push(seq![c], none, crlf);
    lemma_ended_push(seq![b, c], none, crlf);
    assert(Seq::<Seq<char>>::empty().push(a) =~= seq![a]);
    assert(Seq::<Seq<char>>::empty().push(b) =~= seq![b]);
    assert(Seq::<Seq<char>>::empty().push(c) =~= seq![c]);
    assert(seq![b].push(c) =~= seq![b, c]);
    assert(seq![c].push(none) =~= seq![c, none]);
    assert(seq![b, c].push(none) =~= seq![b, c, none]);
    assert("Connection: close\r\n\r\n"@ =~= each_ended(seq![c, none], crlf));
    assert("Content-Length: "@ + text::decimal(len) + "\r\n"@ + "Connection: close\r\n\r\n"@
        =~= each_ended(seq![b, c, none], crlf));
    assert("HTTP/1.1 "@ + text::decimal(status as nat) + " "@ + reason(status) + "\r\n"@
        =~= each_ended(seq![a], crlf));
    if exists|i: int| 0 <= i < ls.len() && gives_length(#[trigger] ls[i]) {
        let i = choose|i: int| 0 <= i < ls.len() && gives_length(#[trigger] ls[i]);
        assert(gives_length(ls[i]));
        assert(full_head(status, headers, len) =~= each_ended(seq![a], crlf) + trimmed_block(ls)
            + each_ended(seq![c, none], crlf));
    } else {
        assert(forall|i: int| 0 <= i < ls.len() ==> !#[trigger] gives_length(ls[i]));
        assert(full_head(status, headers, len) =~= each_ended(seq![a], crlf) + trimmed_block(ls)
            + each_ended(seq![b, c, none], crlf));
    }
}

/// One line more.
pub proof fn lemma_ended_push(ls: Seq<Seq<char>>, line: Seq<char>, end: Seq<char>)
    ensures
        each_ended(ls.push(line), end) == each_ended(ls, end) + line + end,
{
    assert(ls.push(line).drop_last() =~= ls);
}

/// A slice holds the bytes of the body from its offset on, each in its place: as many as were asked
/// for, or as there are. An offset before the body counts as 0.
pub proof fn slices_hold_the_bytes(body: Seq<u8>, off: int, len: int)
    ensures
        ({
            let s = slice_of(body, off, len);
            let start = if off < 0 {
                0
            } else {
                off
            };
            &&& len <= 0 || start >= body.len() ==> s.len() == 0
            &&& len > 0 && start < body.len() ==> s.len() == if len <= body.len() - start {
                len
            } else {
                body.len() - start
            }
            &&& forall|i: int| 0 <= i < s.len() ==> #[trigger] s[i] == body[start + i]
        }),
{
}

/// A request that was read is seen as what it holds, and so is its head.
pub proof fn requests_are_seen_as_they_are(h: RequestHead, q: Request)
    ensures
        h@.method == h.method@ && h@.path == h.path@ && h@.headers == h.headers@,
        h@.content_length == h.content_length,
        q@.method == q.method@ && q@.path == q.path@ && q@.headers == q.headers@ && q@.body
            == q.body@,
{
}

/// The head of a request says what is asked, whatever bytes it holds: its first two words are the
/// method and the path, the lines behind the first are its headers, and a first line of fewer words
/// is no request.
pub proof fn heads_say_what_is_asked(head: Seq<u8>)
    ensures
        ({
            let ls = text::lines(text::latin1(head));
            let ws = text::words(ls[0]);
            &&& ws.len() < 2 ==> head_view(head) is None
            &&& ws.len() >= 2 ==> head_view(head) == Some(
                HeadView {
                    method: ws[0],
                    path: ws[1],
                    headers: header_block(ls.skip(1)),
                    content_length: body_length(ls.skip(1)),
                },
            )
        }),
{
}

/// A header line more stands behind those before it, with a line feed; an empty one is left out,
/// wherever it stands.
pub proof fn one_header_line_more(ls: Seq<Seq<char>>, line: Seq<char>)
    ensures
        header_block(Seq::empty()).len() == 0,
        header_block(ls.push(line)) == header_block(ls) + (if line.len() > 0 {
            line + seq!['\n']
        } else {
            Seq::<char>::empty()
        }),
{
    assert(ls.push(line).drop_last() =~= ls);
    assert(header_block(ls.push(line)) =~= header_block(ls) + (if line.len() > 0 {
        line + seq!['\n']
    } else {
        Seq::<char>::empty()
    }));
}

/// Without a whole head, or with one whose first line is no request, there is no request.
pub proof fn requests_need_their_head(input: Seq<u8>)
    ensures
        head_of(input) is None ==> request_at(input) is None,
        head_of(input) matches Some(head) ==> (head_view(head) is None ==> request_at(
            input,
        ) is None),
{
}

} // verus!
