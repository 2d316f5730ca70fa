//! The opening handshake of a WebSocket (RFC 6455), on the side of the client and of the server.
use crate::base64;
use crate::base64::base64;
use crate::http;
use crate::sha1;
use crate::sha1::sha1;
use crate::text;
use crate::text::{
    chars_of, cut_last, cut_once, decimal_string, equal_ignoring_case, find_char, has_prefix,
    has_text, latin1_chars, lowered, read_number, same_chars, split_at_char, split_lines,
    string_of, trimmed,
};
use vstd::prelude::*;
use vstd::slice::slice_subrange;
use vstd::utf8;

verus! {

// ---------------------------------------------------------------------------
// Tokens

/// The state of the generator after `n` steps from `seed`.
pub open spec fn generator_state(seed: u64, n: nat) -> u64
    decreases n,
{
    if n == 0 {
        seed
    } else {
        generator_state(seed, (n - 1) as nat).wrapping_mul(6364136223846793005u64).wrapping_add(
            1442695040888963407u64,
        )
    }
}

/// The first `n` bytes that the generator gives from `seed`.
pub open spec fn generated(seed: u64, n: nat) -> Seq<u8> {
    Seq::new(n, |i: int| (generator_state(seed, (i + 1) as nat) >> 33) as u8)
}

/// Bytes for a nonce or a mask, spread from a seed. They are not fit for cryptography.
pub fn pseudo_random_bytes(seed: u64, n: usize) -> (out: Vec<u8>)
    ensures
        out@ == generated(seed, n as nat),
{
    let mut state: u64 = seed;
    let mut out: Vec<u8> = Vec::new();
    let mut i: usize = 0;
    while i < n
        invariant
            i <= n,
            state == generator_state(seed, i as nat),
            out@ == generated(seed, i as nat),
        decreases n - i,
    {
        state = state.wrapping_mul(6364136223846793005u64).wrapping_add(1442695040888963407u64);
        out.push(#[verifier::truncate] ((state >> 33) as u8));
        i += 1;
        assert(out@ =~= generated(seed, i as nat));
    }
    out
}

/// The four bytes of a frame mask, from a seed.
pub fn mask_from(seed: u64) -> (r: [u8; 4])
    ensures
        r@ == generated(seed, 4),
{
    let b = pseudo_random_bytes(seed, 4);
    let r = [b[0], b[1], b[2], b[3]];
    assert(r@ =~= b@);
    r
}

/// The nonce of a client: sixteen bytes from a seed, in base64.
pub open spec fn nonce_text(seed: u64) -> Seq<char> {
    base64::encoded(generated(seed, 16))
}

/// Makes the nonce of a client.
pub fn nonce_from(seed: u64) -> (r: String)
    ensures
        r@ == nonce_text(seed),
        r@.len() == 24,
{
    let b = pseudo_random_bytes(seed, 16);
    proof {
        base64::encoded_length(b@);
    }
    base64(b.as_slice())
}

/// The token by which a server shows that it has read the key of a client.
pub open spec fn accept_token(key: Seq<char>) -> Seq<char> {
    base64::encoded(
        sha1::sha1_digest(utf8::encode_utf8(key + "258EAFA5-E914-47DA-95CA-C5AB0DC85B11"@)),
    )
}

/// Computes the token that answers `key`.
pub fn accept_token_for(key: &str) -> (r: String)
    ensures
        r@ == accept_token(key@),
{
    let mut input = String::new();
    input.append(key);
    input.append("258EAFA5-E914-47DA-95CA-C5AB0DC85B11");
    assert(input@ =~= key@ + "258EAFA5-E914-47DA-95CA-C5AB0DC85B11"@);
    let digest = sha1(input.as_str().as_bytes());
    base64(digest.as_slice())
}

// ---------------------------------------------------------------------------
// Addresses

/// Where a WebSocket is found.
pub struct WsUrl {
    pub host: String,
    pub port: u16,
    pub path: String,
}

/// Where a WebSocket is found, over sequences.
pub struct UrlView {
    pub host: Seq<char>,
    pub port: nat,
    pub path: Seq<char>,
}

impl View for WsUrl {
    type V = UrlView;

    open spec fn view(&self) -> UrlView {
        UrlView { host: self.host@, port: self.port as nat, path: self.path@ }
    }
}

/// The part of an address up to the first slash.
pub open spec fn authority(rest: Seq<char>) -> Seq<char> {
    rest.take(text::find(rest, '/'))
}

/// The part of an address from the first slash on, or a slash where there is none.
pub open spec fn path_part(rest: Seq<char>) -> Seq<char> {
    if text::find(rest, '/') < rest.len() {
        rest.skip(text::find(rest, '/'))
    } else {
        "/"@
    }
}

/// What `ws://host:port/path` says. The port is 80 and the path `/` where they are left out; a
/// port that is no number up to 65535 makes the address malformed, and so does another scheme.
pub open spec fn url_view(url: Seq<char>) -> Option<UrlView> {
    if text::starts_with(url, "ws://"@) {
        let rest = url.skip("ws://"@.len() as int);
        match text::split_last(authority(rest), ':') {
            Some((host, port)) => match text::parse_number(port, 65535) {
                Some(n) => Some(UrlView { host, port: n, path: path_part(rest) }),
                None => None,
            },
            None => Some(UrlView { host: authority(rest), port: 80, path: path_part(rest) }),
        }
    } else {
        None
    }
}

/// Reads the address of a WebSocket.
pub fn parse_ws_url(url: &str) -> (r: Option<WsUrl>)
    ensures
        match r {
            Some(u) => url_view(url@) == Some(u@),
            None => url_view(url@) is None,
        },
{
    let chars = chars_of(url);
    let scheme = chars_of("ws://");
    if !has_prefix(chars.as_slice(), scheme.as_slice()) {
        return None;
    }
    let rest = slice_subrange(chars.as_slice(), scheme.len(), chars.len());
    assert(rest@ =~= url@.skip("ws://"@.len() as int));
    let i: usize = find_char(rest, '/');
    let front = slice_subrange(rest, 0, i);
    assert(front@ =~= authority(rest@));
    let path = if i < rest.len() {
        let tail = slice_subrange(rest, i, rest.len());
        assert(tail@ =~= rest@.skip(i as int));
        string_of(tail)
    } else {
        "/".to_owned()
    };
    match cut_last(front, ':') {
        Some((host, port)) => match read_number(port, 65535) {
            Some(n) => Some(WsUrl { host: string_of(host), port: n as u16, path }),
            None => None,
        },
        None => Some(WsUrl { host: string_of(front), port: 80, path }),
    }
}

/// An address that is written out is read as it was written: the host, which may hold colons but no
/// slash, the port, and the path with its slash.
pub proof fn addresses_read_back(host: Seq<char>, port: nat, path: Seq<char>)
    requires
        forall|i: int| 0 <= i < host.len() ==> host[i] != '/',
        port <= 65535,
        path.len() > 0,
        path[0] == '/',
    ensures
        url_view("ws://"@ + host + ":"@ + text::decimal(port) + path) == Some(
            UrlView { host, port, path },
        ),
{
    reveal_strlit("ws://");
    reveal_strlit(":");
    let digits = text::decimal(port);
    text::lemma_decimal_digits(port);
    let front = host + seq![':'] + digits;
    let url = "ws://"@ + host + ":"@ + digits + path;
    assert(":"@ =~= seq![':']);
    assert(url.take("ws://"@.len() as int) =~= "ws://"@);
    let rest = url.skip("ws://"@.len() as int);
    assert(rest =~= front + path);
    assert forall|j: int| 0 <= j < front.len() implies rest[j] != '/' by {
        if j > host.len() {
            assert(front[j] == digits[j - host.len() - 1]);
        }
    }
    assert(rest[front.len() as int] == path[0]);
    text::lemma_find_unique(rest, '/', front.len() as int);
    assert(authority(rest) =~= front);
    assert(path_part(rest) =~= path);
    text::lemma_find_last(host, ':', digits);
    assert(front.take(host.len() as int) =~= host);
    assert(front.skip(host.len() as int + 1) =~= digits);
    assert(digits[0] != '+');
}

// ---------------------------------------------------------------------------
// Headers

/// The value of a header line, where its name is `name` but for the case of letters.
pub open spec fn header_value(line: Seq<char>, name: Seq<char>) -> Option<Seq<char>> {
    match text::split_once(line, ':') {
        Some((key, value)) => if text::same_ignoring_case(text::trim(key), name) {
            Some(text::trim(value))
        } else {
            None
        },
        None => None,
    }
}

/// The value of the last header line whose name is `name`.
pub open spec fn last_header(ls: Seq<Seq<char>>, name: Seq<char>) -> Option<Seq<char>>
    decreases ls.len(),
{
    if ls.len() == 0 {
        None
    } else {
        match header_value(ls.last(), name) {
            Some(v) => Some(v),
            None => last_header(ls.drop_last(), name),
        }
    }
}

/// Finds the value of the last header line whose name is `name`.
pub fn find_header<'a>(ls: &'a Vec<Vec<char>>, name: &str) -> (r: Option<&'a [char]>)
    ensures
        match r {
            Some(v) => last_header(text::texts(ls@), name@) == Some(v@),
            None => last_header(text::texts(ls@), name@) is None,
        },
{
    let wanted = chars_of(name);
    let ghost all = text::texts(ls@);
    let mut i: usize = ls.len();
    assert(all.take(i as int) =~= all);
    while i > 0
        invariant
            i <= ls@.len(),
            all == text::texts(ls@),
            wanted@ == name@,
            last_header(all, name@) == last_header(all.take(i as int), name@),
        decreases i,
    {
        let line = ls[i - 1].as_slice();
        let ghost t = all.take(i as int);
        assert(t.drop_last() =~= all.take(i - 1));
        assert(t.last() == line@);
        match cut_once(line, ':') {
            Some((key, value)) => {
                if equal_ignoring_case(trimmed(key), wanted.as_slice()) {
                    return Some(trimmed(value));
                }
            },
            None => {},
        }
        i -= 1;
    }
    None
}

// ---------------------------------------------------------------------------
// The client

/// The request by which a client asks for a WebSocket.
pub open spec fn upgrade_request(
    host: Seq<char>,
    port: nat,
    path: Seq<char>,
    nonce: Seq<char>,
) -> Seq<char> {
    "GET "@ + path + " HTTP/1.1\r\nHost: "@ + host + ":"@ + text::decimal(port)
        + "\r\nUpgrade: websocket\r\nConnection: Upgrade"@ + "\r\nSec-WebSocket-Key: "@ + nonce
        + "\r\nSec-WebSocket-Version: 13\r\n\r\n"@
}

/// Writes the request by which a client asks for a WebSocket.
pub fn handshake_request(host: &str, port: u16, path: &str, nonce: &str) -> (r: String)
    ensures
        r@ == upgrade_request(host@, port as nat, path@, nonce@),
{
    let mut r = String::new();
    r.append("GET ");
    r.append(path);
    r.append(" HTTP/1.1\r\nHost: ");
    r.append(host);
    r.append(":");
    r.append(decimal_string(port as u64).as_str());
    r.append("\r\nUpgrade: websocket\r\nConnection: Upgrade");
    r.append("\r\nSec-WebSocket-Key: ");
    r.append(nonce);
    r.append("\r\nSec-WebSocket-Version: 13\r\n\r\n");
    assert(r@ =~= upgrade_request(host@, port as nat, path@, nonce@));
    r
}

/// Whether a line says that the server switches protocols.
pub open spec fn switches(line: Seq<char>) -> bool {
    text::starts_with(line, "HTTP/1.1 101"@) || text::starts_with(line, "HTTP/1.0 101"@)
}

/// Whether the head of a response accepts the handshake of the client whose nonce was `nonce`: a
/// line of it switches protocols, and the token in it answers the nonce.
pub open spec fn accepts(head: Seq<u8>, nonce: Seq<char>) -> bool {
    let ls = text::lines(text::latin1(head));
    &&& exists|i: int| 0 <= i < ls.len() && switches(#[trigger] ls[i])
    &&& last_header(ls, "sec-websocket-accept"@) == Some(accept_token(nonce))
}

/// Reads the head of the server's response.
pub fn handshake_accepts(head: &[u8], nonce: &str) -> (r: bool)
    ensures
        r == accepts(head@, nonce@),
{
    let chars = latin1_chars(head);
    let ls = split_lines(chars.as_slice());
    let ghost all = text::lines(text::latin1(head@));
    let new = chars_of("HTTP/1.1 101");
    let old_one = chars_of("HTTP/1.0 101");
    let mut status_ok: bool = false;
    let mut i: usize = 0;
    while i < ls.len()
        invariant
            i <= ls@.len(),
            all == text::texts(ls@),
            new@ == "HTTP/1.1 101"@,
            old_one@ == "HTTP/1.0 101"@,
            status_ok == exists|j: int| 0 <= j < i && switches(#[trigger] all[j]),
        decreases ls@.len() - i,
    {
        let line = ls[i].as_slice();
        assert(all[i as int] == line@);
        if has_prefix(line, new.as_slice()) || has_prefix(line, old_one.as_slice()) {
            assert(switches(all[i as int]));
            status_ok = true;
        }
        i += 1;
    }
    if !status_ok {
        return false;
    }
    match find_header(&ls, "sec-websocket-accept") {
        Some(seen) => {
            let expected = chars_of(accept_token_for(nonce).as_str());
            same_chars(seen, expected.as_slice())
        },
        None => false,
    }
}

// ---------------------------------------------------------------------------
// The server

/// Whether the headers of a request ask for a WebSocket: they hold the name of the key, in any
/// case.
pub open spec fn asks_for_upgrade(headers: Seq<char>) -> bool {
    text::contains_text(text::lower_all(headers), "sec-websocket-key"@)
}

/// Tells a request for a WebSocket from any other.
pub fn wants_websocket(headers: &str) -> (r: bool)
    ensures
        r == asks_for_upgrade(headers@),
{
    let chars = chars_of(headers);
    let low = lowered(chars.as_slice());
    let name = chars_of("sec-websocket-key");
    has_text(low.as_slice(), name.as_slice())
}

/// The key in a block of header lines.
pub open spec fn client_key(headers: Seq<char>) -> Option<Seq<char>> {
    last_header(text::split(headers, '\n'), "sec-websocket-key"@)
}

/// The response by which a server accepts the WebSocket of the client whose key is `key`.
pub open spec fn upgrade_response(key: Seq<char>) -> Seq<char> {
    "HTTP/1.1 101 Switching Protocols\r\nUpgrade: websocket\r\nConnection: Upgrade"@
        + "\r\nSec-WebSocket-Accept: "@ + accept_token(key) + "\r\n\r\n"@
}

/// Writes the response to a request for a WebSocket with the given header lines; nothing where they
/// hold no key.
pub fn ws_upgrade(headers: &str) -> (r: Option<String>)
    ensures
        match r {
            Some(t) => client_key(headers@) is Some && t@ == upgrade_response(
                client_key(headers@)->0,
            ),
            None => client_key(headers@) is None,
        },
{
    let chars = chars_of(headers);
    let ls = split_at_char(chars.as_slice(), '\n');
    match find_header(&ls, "sec-websocket-key") {
        Some(key) => {
            let key = string_of(key);
            let token = accept_token_for(key.as_str());
            let mut r = String::new();
            r.append(
                "HTTP/1.1 101 Switching Protocols\r\nUpgrade: websocket\r\nConnection: Upgrade",
            );
            r.append("\r\nSec-WebSocket-Accept: ");
            r.append(token.as_str());
            r.append("\r\n\r\n");
            assert(r@ =~= upgrade_response(key@));
            Some(r)
        },
        None => None,
    }
}

// ---------------------------------------------------------------------------
// Both sides together

/// Whether no character of `s` is a space, a line end, a colon or outside ASCII.
spec fn plain(s: Seq<char>) -> bool {
    forall|i: int|
        0 <= i < s.len() ==> !text::is_space(#[trigger] s[i]) && s[i] != ':' && '\0' <= s[i]
            <= '\u{7f}'
}

/// Base64 is plain text.
proof fn lemma_encoded_plain(data: Seq<u8>)
    ensures
        plain(base64::encoded(data)),
{
    base64::encoded_characters(data);
}

/// Trimming takes the space before a plain text and nothing else.
proof fn lemma_trim_plain(s: Seq<char>)
    requires
        plain(s),
        s.len() > 0,
    ensures
        text::trim(seq![' '] + s) == s,
        text::trim(s) == s,
{
    let t = seq![' '] + s;
    assert(t.skip(1) =~= s);
    assert(!text::is_space(s[0]) && !text::is_space(s[s.len() - 1]));
    assert(text::trim_start(t) == text::trim_start(s));
}

/// A header line, where the name holds no colon: its name and its value.
proof fn lemma_header_line(name: Seq<char>, value: Seq<char>)
    requires
        plain(name),
        name.len() > 0,
        plain(value),
        value.len() > 0,
    ensures
        text::split_once(name + seq![':', ' '] + value, ':') == Some((name, seq![' '] + value)),
        text::trim(name) == name,
        text::trim(seq![' '] + value) == value,
{
    let s = name + seq![':', ' '] + value;
    assert(forall|j: int| 0 <= j < name.len() ==> s[j] == name[j]);
    text::lemma_find_unique(s, ':', name.len() as int);
    assert(s.take(name.len() as int) =~= name);
    assert(s.skip(name.len() as int + 1) =~= seq![' '] + value);
    lemma_trim_plain(name);
    lemma_trim_plain(value);
}

/// An empty line is no header.
proof fn lemma_no_header(name: Seq<char>)
    ensures
        header_value(Seq::<char>::empty(), name) is None,
{
    text::lemma_find(Seq::<char>::empty(), ':');
}

/// What comes before the token in the response of a server.
spec fn response_front() -> Seq<char> {
    "HTTP/1.1 101 Switching Protocols\r\nUpgrade: websocket\r\nConnection: Upgrade"@
}

/// The first line of the response of a server switches protocols.
proof fn lemma_response_switches()
    ensures
        utf8::is_ascii_chars(response_front()),
        text::lines(response_front()).len() > 0,
        switches(text::lines(response_front())[0]),
{
    reveal_strlit("HTTP/1.1 101 Switching Protocols\r\nUpgrade: websocket\r\nConnection: Upgrade");
    reveal_strlit("HTTP/1.1 101 Switching Protocols");
    reveal_strlit("Upgrade: websocket\r\nConnection: Upgrade");
    reveal_strlit("HTTP/1.1 101");
    let first = "HTTP/1.1 101 Switching Protocols"@;
    let more = "Upgrade: websocket\r\nConnection: Upgrade"@;
    assert(response_front() =~= first + seq!['\r', '\n'] + more);
    text::lemma_lines_concat(first, more);
    text::lemma_one_line(first);
    assert(first.take("HTTP/1.1 101"@.len() as int) =~= "HTTP/1.1 101"@);
}

/// The line with the token in the response of a server.
spec fn token_line(token: Seq<char>) -> Seq<char> {
    "Sec-WebSocket-Accept"@ + seq![':', ' '] + token
}

proof fn lemma_token_line(token: Seq<char>)
    requires
        plain(token),
        token.len() > 0,
    ensures
        utf8::is_ascii_chars(token_line(token)),
        text::on_one_line(token_line(token)),
        header_value(token_line(token), "sec-websocket-accept"@) == Some(token),
{
    reveal_strlit("Sec-WebSocket-Accept");
    reveal_strlit("sec-websocket-accept");
    let name = "Sec-WebSocket-Accept"@;
    lemma_header_line(name, token);
    assert(text::lower_all(name) =~= "sec-websocket-accept"@);
    assert(text::lower_all("sec-websocket-accept"@) =~= "sec-websocket-accept"@);
    let line = token_line(token);
    let n = name.len() + 2;
    assert forall|i: int| 0 <= i < line.len() implies '\0' <= #[trigger] line[i] <= '\u{7f}'
        && line[i] != '\r' by {
        if n <= i {
            assert(line[i] == token[i - n]);
        }
    }
}

/// The lines of the response of a server.
proof fn lemma_response_lines(token: Seq<char>)
    requires
        plain(token),
        token.len() > 0,
    ensures
        text::lines(
            text::latin1(
                utf8::encode_utf8(
                    response_front() + "\r\nSec-WebSocket-Accept: "@ + token + "\r\n\r\n"@,
                ),
            ),
        ) == text::lines(response_front()).push(token_line(token)).push(Seq::<char>::empty()).push(
            Seq::<char>::empty(),
        ),
{
    lemma_response_switches();
    lemma_token_line(token);
    let front = response_front();
    let line = token_line(token);
    let none = Seq::<char>::empty();
    let crlf = seq!['\r', '\n'];
    let tail = none + crlf + none;
    let all = front + "\r\nSec-WebSocket-Accept: "@ + token + "\r\n\r\n"@;
    assert(all =~= front + crlf + (line + crlf + tail)) by {
        reveal_strlit("\r\nSec-WebSocket-Accept: ");
        reveal_strlit("Sec-WebSocket-Accept");
        reveal_strlit("\r\n\r\n");
    }
    assert(utf8::is_ascii_chars(all));
    text::lemma_latin1_ascii(all);
    text::lemma_lines_concat(front, line + crlf + tail);
    text::lemma_lines_concat(line, tail);
    text::lemma_lines_concat(none, none);
    text::lemma_one_line(line);
    text::lemma_one_line(none);
    assert(text::lines(all) =~= text::lines(front).push(line).push(none).push(none));
}

/// The response of a server is what its client waits for: whatever the nonce, the head that
/// answers it is accepted.
pub proof fn responses_are_accepted(nonce: Seq<char>)
    ensures
        accepts(utf8::encode_utf8(upgrade_response(nonce)), nonce),
{
    let token = accept_token(nonce);
    let digest = sha1::sha1_digest(
        utf8::encode_utf8(nonce + "258EAFA5-E914-47DA-95CA-C5AB0DC85B11"@),
    );
    lemma_encoded_plain(digest);
    base64::encoded_length(digest);
    lemma_response_switches();
    lemma_token_line(token);
    lemma_response_lines(token);
    let name = "sec-websocket-accept"@;
    lemma_no_header(name);
    let none = Seq::<char>::empty();
    let before = text::lines(response_front());
    let one = before.push(token_line(token));
    let ls = text::lines(text::latin1(utf8::encode_utf8(upgrade_response(nonce))));
    assert(ls == one.push(none).push(none));
    assert(switches(ls[0]));
    assert(ls.drop_last() =~= one.push(none));
    assert(one.push(none).drop_last() =~= one);
    assert(last_header(one, name) == Some(token));
    assert(last_header(one.push(none), name) == Some(token));
}

/// A block of header lines is empty or ends in a line feed.
proof fn lemma_block_ends(ls: Seq<Seq<char>>)
    ensures
        http::header_block(ls).len() > 0 ==> http::header_block(ls).last() == '\n',
    decreases ls.len(),
{
    if ls.len() > 0 {
        lemma_block_ends(ls.drop_last());
    }
}

/// The lines of a request behind whatever comes before its key.
proof fn lemma_request_lines(front: Seq<char>, nonce: Seq<char>)
    requires
        plain(nonce),
    ensures
        text::lines(
            front + "\r\nSec-WebSocket-Key: "@ + nonce + "\r\nSec-WebSocket-Version: 13\r\n\r\n"@,
        ) == text::lines(front).push("Sec-WebSocket-Key"@ + seq![':', ' '] + nonce).push(
            "Sec-WebSocket-Version: 13"@,
        ).push(Seq::<char>::empty()).push(Seq::<char>::empty()),
{
    reveal_strlit("\r\nSec-WebSocket-Key: ");
    reveal_strlit("Sec-WebSocket-Key");
    reveal_strlit("\r\nSec-WebSocket-Version: 13\r\n\r\n");
    reveal_strlit("Sec-WebSocket-Version: 13");
    let crlf = seq!['\r', '\n'];
    let none = Seq::<char>::empty();
    let key_line = "Sec-WebSocket-Key"@ + seq![':', ' '] + nonce;
    let version = "Sec-WebSocket-Version: 13"@;
    let tail = none + crlf + none;
    let all = front + "\r\nSec-WebSocket-Key: "@ + nonce
        + "\r\nSec-WebSocket-Version: 13\r\n\r\n"@;
    assert(all =~= front + crlf + (key_line + crlf + (version + crlf + tail)));
    text::lemma_lines_concat(front, key_line + crlf + (version + crlf + tail));
    text::lemma_lines_concat(key_line, version + crlf + tail);
    text::lemma_lines_concat(version, tail);
    text::lemma_lines_concat(none, none);
    text::lemma_one_line(key_line);
    text::lemma_one_line(version);
    text::lemma_one_line(none);
    assert(text::lines(all) =~= text::lines(front).push(key_line).push(version).push(none).push(
        none,
    ));
}

/// The key in a block of header lines that end in a key and a version.
proof fn lemma_block_key(before: Seq<char>, nonce: Seq<char>)
    requires
        plain(nonce),
        nonce.len() > 0,
        before.len() > 0 ==> before.last() == '\n',
    ensures
        client_key(
            before + ("Sec-WebSocket-Key"@ + seq![':', ' '] + nonce) + seq!['\n']
                + "Sec-WebSocket-Version: 13"@ + seq!['\n'],
        ) == Some(nonce),
{
    reveal_strlit("Sec-WebSocket-Key");
    reveal_strlit("sec-websocket-key");
    reveal_strlit("Sec-WebSocket-Version: 13");
    reveal_strlit("Sec-WebSocket-Version");
    reveal_strlit("13");
    let none = Seq::<char>::empty();
    let lf = seq!['\n'];
    let key_line = "Sec-WebSocket-Key"@ + seq![':', ' '] + nonce;
    let version = "Sec-WebSocket-Version: 13"@;
    let rest = key_line + lf + (version + lf + none);
    let all = before + key_line + lf + version + lf;
    text::lemma_one_piece(key_line, '\n');
    text::lemma_one_piece(version, '\n');
    text::lemma_one_piece(none, '\n');
    text::lemma_split_concat(key_line, '\n', version + lf + none);
    text::lemma_split_concat(version, '\n', none);
    let pieces = text::split(all, '\n');
    let head = if before.len() > 0 {
        text::split(before.drop_last(), '\n')
    } else {
        Seq::<Seq<char>>::empty()
    };
    if before.len() > 0 {
        assert(all =~= before.drop_last() + lf + rest);
        text::lemma_split_concat(before.drop_last(), '\n', rest);
    } else {
        assert(all =~= rest);
    }
    assert(pieces =~= head.push(key_line).push(version).push(none));
    let name = "sec-websocket-key"@;
    lemma_no_header(name);
    assert(version =~= "Sec-WebSocket-Version"@ + seq![':', ' '] + "13"@);
    lemma_header_line("Sec-WebSocket-Version"@, "13"@);
    lemma_header_line("Sec-WebSocket-Key"@, nonce);
    assert(text::lower_all("Sec-WebSocket-Version"@).len() != text::lower_all(name).len());
    assert(text::lower_all("Sec-WebSocket-Key"@) =~= name);
    assert(text::lower_all(name) =~= name);
    assert(pieces.drop_last() =~= head.push(key_line).push(version));
    assert(pieces.drop_last().drop_last() =~= head.push(key_line));
    assert(header_value(key_line, name) == Some(nonce));
    assert(header_value(version, name) is None);
    assert(last_header(head.push(key_line), name) == Some(nonce));
    assert(last_header(head.push(key_line).push(version), name) == Some(nonce));
}

/// What comes before the key in a request.
spec fn request_front(host: Seq<char>, port: nat, path: Seq<char>) -> Seq<char> {
    "GET "@ + path + " HTTP/1.1\r\nHost: "@ + host + ":"@ + text::decimal(port)
        + "\r\nUpgrade: websocket\r\nConnection: Upgrade"@
}

/// The lines of the request of a client, as the server sees them.
proof fn lemma_seen_lines(host: Seq<char>, port: nat, path: Seq<char>, nonce: Seq<char>)
    requires
        plain(nonce),
    ensures
        text::lines(text::latin1(utf8::encode_utf8(upgrade_request(host, port, path, nonce))))
            == text::lines(
            text::latin1(utf8::encode_utf8(request_front(host, port, path))),
        ).push("Sec-WebSocket-Key"@ + seq![':', ' '] + nonce).push("Sec-WebSocket-Version: 13"@).push(
            Seq::<char>::empty(),
        ).push(Seq::<char>::empty()),
{
    let front_text = request_front(host, port, path);
    let back_text = "\r\nSec-WebSocket-Key: "@ + nonce
        + "\r\nSec-WebSocket-Version: 13\r\n\r\n"@;
    let all = upgrade_request(host, port, path, nonce);
    assert(all =~= front_text + back_text);
    text::lemma_encode_concat(front_text, back_text);
    let front = text::latin1(utf8::encode_utf8(front_text));
    text::lemma_latin1_concat(utf8::encode_utf8(front_text), utf8::encode_utf8(back_text));
    assert(utf8::is_ascii_chars(back_text)) by {
        reveal_strlit("\r\nSec-WebSocket-Key: ");
        reveal_strlit("\r\nSec-WebSocket-Version: 13\r\n\r\n");
    }
    text::lemma_latin1_ascii(back_text);
    assert(text::latin1(utf8::encode_utf8(all)) =~= front + "\r\nSec-WebSocket-Key: "@ + nonce
        + "\r\nSec-WebSocket-Version: 13\r\n\r\n"@);
    lemma_request_lines(front, nonce);
}

/// A block of header lines that end in a key and a version.
proof fn lemma_block_tail(rest: Seq<Seq<char>>, key_line: Seq<char>, version: Seq<char>)
    requires
        key_line.len() > 0,
        version.len() > 0,
    ensures
        http::header_block(
            rest.push(key_line).push(version).push(Seq::<char>::empty()).push(Seq::<char>::empty()),
        ) == http::header_block(rest) + key_line + seq!['\n'] + version + seq!['\n'],
{
    let none = Seq::<char>::empty();
    let one = rest.push(key_line);
    let two = one.push(version);
    assert(one.drop_last() =~= rest);
    assert(two.drop_last() =~= one);
    assert(two.push(none).drop_last() =~= two);
    assert(two.push(none).push(none).drop_last() =~= two.push(none));
    assert(http::header_block(one) == http::header_block(rest) + key_line + seq!['\n']);
    assert(http::header_block(two) == http::header_block(one) + version + seq!['\n']);
    assert(http::header_block(two.push(none)) == http::header_block(two));
}

/// The request of a client reaches the server with its nonce: wherever the server reads the whole
/// of it as a request, it finds the nonce as the key, and so answers what the client accepts.
pub proof fn handshakes_agree(host: Seq<char>, port: nat, path: Seq<char>, seed: u64)
    ensures
        ({
            let request = utf8::encode_utf8(upgrade_request(host, port, path, nonce_text(seed)));
            http::head_of(request) == Some(request) ==> (http::head_view(request) matches Some(
                h,
            ) ==> {
                &&& client_key(h.headers) == Some(nonce_text(seed))
                &&& accepts(
                    utf8::encode_utf8(upgrade_response(client_key(h.headers)->0)),
                    nonce_text(seed),
                )
            })
        }),
{
    let nonce = nonce_text(seed);
    lemma_encoded_plain(generated(seed, 16));
    base64::encoded_length(generated(seed, 16));
    lemma_seen_lines(host, port, path, nonce);
    let request = utf8::encode_utf8(upgrade_request(host, port, path, nonce));
    let none = Seq::<char>::empty();
    let key_line = "Sec-WebSocket-Key"@ + seq![':', ' '] + nonce;
    let version = "Sec-WebSocket-Version: 13"@;
    let ls = text::lines(text::latin1(request));
    let before = text::lines(text::latin1(utf8::encode_utf8(request_front(host, port, path))));
    assert(before.len() > 0);
    let rest = before.skip(1);
    assert(ls.skip(1) =~= rest.push(key_line).push(version).push(none).push(none));
    assert(version.len() > 0) by {
        reveal_strlit("Sec-WebSocket-Version: 13");
    }
    lemma_block_tail(rest, key_line, version);
    lemma_block_ends(rest);
    lemma_block_key(http::header_block(rest), nonce);
    responses_are_accepted(nonce);
}

/// A text with a character that is no space has a word.
proof fn lemma_has_word(s: Seq<char>, i: int)
    requires
        0 <= i < s.len(),
        !text::is_space(s[i]),
    ensures
        text::trim_start(s).len() > 0,
    decreases s.len(),
{
    if text::is_space(s[0]) {
        assert(s.skip(1)[i - 1] == s[i]);
        lemma_has_word(s.skip(1), i - 1);
    }
}

/// The request of a client is read whole, and as a request, where neither its host nor its path
/// holds a line end and it is within the limit.
pub proof fn requests_are_read_whole(host: Seq<char>, port: nat, path: Seq<char>, seed: u64)
    requires
        text::on_one_line(host),
        text::on_one_line(path),
        ({
            let request = utf8::encode_utf8(upgrade_request(host, port, path, nonce_text(seed)));
            http::text_size(request.take(request.len() - 1)) <= http::HEAD_LIMIT
        }),
    ensures
        ({
            let request = utf8::encode_utf8(upgrade_request(host, port, path, nonce_text(seed)));
            http::head_of(request) == Some(request) && http::head_view(request) is Some
        }),
{
    let nonce = nonce_text(seed);
    lemma_encoded_plain(generated(seed, 16));
    lemma_seen_lines(host, port, path, nonce);
    let request = utf8::encode_utf8(upgrade_request(host, port, path, nonce));
    let key_line = "Sec-WebSocket-Key"@ + seq![':', ' '] + nonce;
    let version = "Sec-WebSocket-Version: 13"@;
    let ls = text::lines(text::latin1(request));
    let before = text::lines(text::latin1(utf8::encode_utf8(request_front(host, port, path))));
    lemma_front_lines(host, port, path);
    assert(version.len() > 0) by {
        reveal_strlit("Sec-WebSocket-Version: 13");
    }
    let used = before.push(key_line).push(version);
    assert(ls == used.push(Seq::<char>::empty()).push(Seq::<char>::empty()));
    lemma_request_ends(host, port, path, nonce);
    http::lemma_head_whole(request, used);
    let n = choose|n: int| http::is_head_end(request, n);
    http::lemma_head_end_unique(request, n, request.len() as int);
    assert(request.take(n) =~= request);
    assert(ls[0] == before[0]);
}

/// The request of a client ends in an empty line.
proof fn lemma_request_ends(host: Seq<char>, port: nat, path: Seq<char>, nonce: Seq<char>)
    ensures
        ({
            let request = utf8::encode_utf8(upgrade_request(host, port, path, nonce));
            http::empty_line_at(request, request.len() as int)
        }),
{
    let tail = seq!['\r', '\n', '\r', '\n'];
    let all = upgrade_request(host, port, path, nonce);
    let front = all.take(all.len() - 4);
    assert(all =~= front + tail) by {
        reveal_strlit("\r\nSec-WebSocket-Version: 13\r\n\r\n");
    }
    http::lemma_ends_in_empty_line(front);
}

/// The lines before the key in the request of a client: none is empty, and the first has two words.
proof fn lemma_front_lines(host: Seq<char>, port: nat, path: Seq<char>)
    requires
        text::on_one_line(host),
        text::on_one_line(path),
    ensures
        ({
            let ls = text::lines(
                text::latin1(utf8::encode_utf8(request_front(host, port, path))),
            );
            &&& ls.len() > 0
            &&& text::words(ls[0]).len() >= 2
            &&& forall|i: int| 0 <= i < ls.len() ==> (#[trigger] ls[i]).len() > 0
        }),
{
    let crlf = seq!['\r', '\n'];
    reveal_strlit("GET ");
    reveal_strlit(" HTTP/1.1");
    reveal_strlit(" HTTP/1.1\r\nHost: ");
    reveal_strlit("Host: ");
    reveal_strlit(":");
    reveal_strlit("\r\nUpgrade: websocket\r\nConnection: Upgrade");
    reveal_strlit("Upgrade: websocket");
    reveal_strlit("Connection: Upgrade");
    text::lemma_decimal_digits(port);
    let first = "GET "@ + path + " HTTP/1.1"@;
    let second = "Host: "@ + host + ":"@ + text::decimal(port);
    let third = "Upgrade: websocket"@;
    let fourth = "Connection: Upgrade"@;
    let front = request_front(host, port, path);
    assert(front =~= first + (crlf + (second + (crlf + (third + (crlf + fourth))))));
    assert(text::on_one_line(first));
    assert(text::on_one_line(second));
    text::lemma_bytes_on_one_line(first);
    text::lemma_bytes_on_one_line(second);
    text::lemma_seen_concat(first, crlf + (second + (crlf + (third + (crlf + fourth)))));
    text::lemma_seen_concat(crlf, second + (crlf + (third + (crlf + fourth))));
    text::lemma_seen_concat(second, crlf + (third + (crlf + fourth)));
    text::lemma_latin1_ascii(crlf);
    text::lemma_latin1_ascii(crlf + (third + (crlf + fourth)));
    let a = text::latin1(utf8::encode_utf8(first));
    let b = text::latin1(utf8::encode_utf8(second));
    let seen = text::latin1(utf8::encode_utf8(front));
    assert(seen =~= a + crlf + (b + crlf + (third + crlf + fourth)));
    text::lemma_lines_concat(a, b + crlf + (third + crlf + fourth));
    text::lemma_lines_concat(b, third + crlf + fourth);
    text::lemma_lines_concat(third, fourth);
    text::lemma_one_line(a);
    text::lemma_one_line(b);
    text::lemma_one_line(third);
    text::lemma_one_line(fourth);
    text::lemma_seen_concat("GET "@ + path, " HTTP/1.1"@);
    text::lemma_seen_concat("GET "@, path);
    text::lemma_seen_concat("Host: "@, host + ":"@ + text::decimal(port));
    assert(second =~= "Host: "@ + (host + ":"@ + text::decimal(port)));
    text::lemma_latin1_ascii("GET "@);
    text::lemma_latin1_ascii(" HTTP/1.1"@);
    text::lemma_latin1_ascii("Host: "@);
    assert(a.len() >= 13 && a[0] == 'G' && a[1] == 'E' && a[2] == 'T' && a[3] == ' ');
    let rest = a.skip(3);
    let end = rest.len() - 1;
    assert(rest[end] == '1');
    lemma_has_word(rest, end);
    assert(text::trim_start(a) == a);
    assert(a.skip(1).skip(1) =~= a.skip(2));
    assert(a.skip(2).skip(1) =~= rest);
    assert(text::find_space(a) == 3) by {
        reveal_with_fuel(text::find_space, 5);
    }
    assert(text::words(a) == seq![a.take(3)] + text::words(rest));
    assert(text::words(rest).len() > 0);
}

/// What `ws://` and something behind it says: what comes before the first slash is the host with its
/// port, and the path is all the rest, or a slash where there is no rest.
proof fn lemma_address(front: Seq<char>, path: Seq<char>)
    requires
        forall|i: int| 0 <= i < front.len() ==> front[i] != '/',
        path.len() > 0 ==> path[0] == '/',
    ensures
        url_view("ws://"@ + front + path) == (match text::split_last(front, ':') {
            Some((host, port)) => match text::parse_number(port, 65535) {
                Some(n) => Some(
                    UrlView {
                        host,
                        port: n,
                        path: if path.len() > 0 {
                            path
                        } else {
                            "/"@
                        },
                    },
                ),
                None => None,
            },
            None => Some(
                UrlView {
                    host: front,
                    port: 80,
                    path: if path.len() > 0 {
                        path
                    } else {
                        "/"@
                    },
                },
            ),
        }),
{
    reveal_strlit("ws://");
    let url = "ws://"@ + front + path;
    assert(url.take("ws://"@.len() as int) =~= "ws://"@);
    let rest = url.skip("ws://"@.len() as int);
    assert(rest =~= front + path);
    assert(forall|j: int| 0 <= j < front.len() ==> rest[j] == front[j]);
    assert(path.len() > 0 ==> rest[front.len() as int] == path[0]);
    text::lemma_find_unique(rest, '/', front.len() as int);
    assert(authority(rest) =~= front);
    assert(path.len() > 0 ==> path_part(rest) =~= path);
}

/// An address without a port is that of port 80: the host is all that comes before the first slash,
/// and the path all from there on, or a slash alone where the address ends with the host.
pub proof fn addresses_without_a_port(host: Seq<char>, path: Seq<char>)
    requires
        forall|i: int| 0 <= i < host.len() ==> host[i] != '/' && host[i] != ':',
        path.len() > 0,
        path[0] == '/',
    ensures
        url_view("ws://"@ + host + path) == Some(UrlView { host, port: 80, path }),
        url_view("ws://"@ + host) == Some(UrlView { host, port: 80, path: "/"@ }),
{
    text::texts_are_cut_whole(host, ':', path);
    lemma_address(host, path);
    lemma_address(host, Seq::empty());
    assert("ws://"@ + host + Seq::<char>::empty() =~= "ws://"@ + host);
}

/// An address with a port: what stands behind the last colon of the host is the port where it is a
/// number up to 65535, in any way of writing it, and makes the address malformed where it is not.
pub proof fn addresses_with_a_port(host: Seq<char>, port: Seq<char>, path: Seq<char>)
    requires
        forall|i: int| 0 <= i < host.len() ==> host[i] != '/',
        forall|i: int| 0 <= i < port.len() ==> port[i] != '/' && port[i] != ':',
        path.len() > 0,
        path[0] == '/',
    ensures
        match text::parse_number(port, 65535) {
            Some(n) => {
                &&& url_view("ws://"@ + host + seq![':'] + port + path) == Some(
                    UrlView { host, port: n, path },
                )
                &&& url_view("ws://"@ + host + seq![':'] + port) == Some(
                    UrlView { host, port: n, path: "/"@ },
                )
            },
            None => {
                &&& url_view("ws://"@ + host + seq![':'] + port + path) is None
                &&& url_view("ws://"@ + host + seq![':'] + port) is None
            },
        },
{
    let front = host + seq![':'] + port;
    assert forall|i: int| 0 <= i < front.len() implies front[i] != '/' by {
        if i > host.len() {
            assert(front[i] == port[i - host.len() - 1]);
        }
    }
    text::texts_are_cut_whole(host, ':', port);
    lemma_address(front, path);
    lemma_address(front, Seq::empty());
    assert("ws://"@ + front + path =~= "ws://"@ + host + seq![':'] + port + path);
    assert("ws://"@ + front + Seq::<char>::empty() =~= "ws://"@ + host + seq![':'] + port);
}

/// An address of any other scheme is malformed.
pub proof fn other_schemes_are_refused(url: Seq<char>)
    requires
        forall|rest: Seq<char>| url != #[trigger] ("ws://"@ + rest),
    ensures
        url_view(url) is None,
{
    text::parts_are_found(url, "ws://"@);
}

/// The bytes that the generator gives are the high bits of its states, of which each is the one
/// before it times a constant, plus another, modulo 2^64. How many are asked for makes no
/// difference to the first ones.
pub proof fn bytes_come_from_a_linear_generator(seed: u64, n: nat, i: int)
    requires
        0 <= i < n,
    ensures
        generated(seed, n).len() == n,
        generator_state(seed, 0) == seed,
        generator_state(seed, (i + 1) as nat) == (generator_state(seed, i as nat)
            * 6364136223846793005 + 1442695040888963407) % 0x1_0000_0000_0000_0000,
        generated(seed, n)[i] == (generator_state(seed, (i + 1) as nat) / 0x2_0000_0000) % 256,
{
    let x = generator_state(seed, (i + 1) as nat);
    assert((x >> 33) as u8 == (x / 0x2_0000_0000) % 256) by (bit_vector);
    let y = generator_state(seed, i as nat);
    let p = y * 6364136223846793005;
    let q = p % 0x1_0000_0000_0000_0000;
    assert(y.wrapping_mul(6364136223846793005u64) == q);
    assert((p + 1442695040888963407) % 0x1_0000_0000_0000_0000 == (q + 1442695040888963407)
        % 0x1_0000_0000_0000_0000) by {
        vstd::arithmetic::div_mod::lemma_add_mod_noop(
            p,
            1442695040888963407,
            0x1_0000_0000_0000_0000,
        );
        vstd::arithmetic::div_mod::lemma_add_mod_noop(
            q,
            1442695040888963407,
            0x1_0000_0000_0000_0000,
        );
    }
}

/// The token that answers a key is the digest of the key and the identifier of the protocol behind
/// it: its base64 stands for exactly that.
pub proof fn tokens_answer_the_whole_key(key: Seq<char>)
    ensures
        base64::decoded(accept_token(key)) == Some(
            sha1::sha1_digest(
                utf8::encode_utf8(key) + utf8::encode_utf8(
                    "258EAFA5-E914-47DA-95CA-C5AB0DC85B11"@,
                ),
            ),
        ),
        base64::decoded(accept_token(key))->0.len() == 20,
{
    let guid = "258EAFA5-E914-47DA-95CA-C5AB0DC85B11"@;
    text::lemma_encode_concat(key, guid);
    base64::encoding_round_trips(sha1::sha1_digest(utf8::encode_utf8(key + guid)));
}

/// The nonce of a client stands for sixteen bytes of the generator.
pub proof fn nonces_stand_for_sixteen_bytes(seed: u64)
    ensures
        base64::decoded(nonce_text(seed)) == Some(generated(seed, 16)),
        nonce_text(seed).len() == 24,
{
    base64::encoding_round_trips(generated(seed, 16));
    base64::encoded_length(generated(seed, 16));
}

/// A header is known by its name in any case, with any white space around it, and its value is all
/// that stands behind the first colon but for white space around it. A line of another name, or
/// without a colon, is not that header.
pub proof fn headers_are_known_by_name(
    a: Seq<char>,
    name: Seq<char>,
    b: Seq<char>,
    c: Seq<char>,
    value: Seq<char>,
    d: Seq<char>,
    wanted: Seq<char>,
)
    requires
        forall|i: int| 0 <= i < a.len() ==> text::is_space(#[trigger] a[i]),
        forall|i: int| 0 <= i < b.len() ==> text::is_space(#[trigger] b[i]),
        forall|i: int| 0 <= i < c.len() ==> text::is_space(#[trigger] c[i]),
        forall|i: int| 0 <= i < d.len() ==> text::is_space(#[trigger] d[i]),
        forall|i: int| 0 <= i < name.len() ==> name[i] != ':',
        name.len() > 0 && !text::is_space(name[0]) && !text::is_space(name.last()),
        value.len() > 0 ==> !text::is_space(value[0]) && !text::is_space(value.last()),
    ensures
        header_value(a + name + b + seq![':'] + c + value + d, wanted) == (if text::lower_all(name)
            == text::lower_all(wanted) {
            Some(value)
        } else {
            None
        }),
        header_value(a + name + b, wanted) is None,
{
    let key = a + name + b;
    let tail = c + value + d;
    assert forall|i: int| 0 <= i < key.len() implies key[i] != ':' by {
        if i < a.len() {
            assert(text::is_space(a[i]));
        } else if i < a.len() + name.len() {
            assert(key[i] == name[i - a.len()]);
        } else {
            assert(text::is_space(b[i - a.len() - name.len()]));
        }
    }
    assert(a + name + b + seq![':'] + c + value + d =~= key + seq![':'] + tail);
    text::texts_are_cut_whole(key, ':', tail);
    text::lemma_trim_between(a, name, b);
    text::trimming_leaves_the_text(c, value, d);
}

/// Where a header is given more than once, the last one counts, and lines that are not that header
/// change nothing.
pub proof fn the_last_header_counts(
    before: Seq<Seq<char>>,
    line: Seq<char>,
    behind: Seq<Seq<char>>,
    name: Seq<char>,
)
    requires
        header_value(line, name) is Some,
        forall|i: int| 0 <= i < behind.len() ==> header_value(#[trigger] behind[i], name) is None,
    ensures
        last_header(before.push(line) + behind, name) == header_value(line, name),
        last_header(behind, name) is None,
    decreases behind.len(),
{
    let all = before.push(line) + behind;
    if behind.len() > 0 {
        assert(all.drop_last() =~= before.push(line) + behind.drop_last());
        assert(all.last() == behind[behind.len() - 1]);
        assert(behind.last() == behind[behind.len() - 1]);
        assert forall|i: int| 0 <= i < behind.drop_last().len() implies header_value(
            #[trigger] behind.drop_last()[i],
            name,
        ) is None by {
            assert(behind.drop_last()[i] == behind[i]);
        }
        the_last_header_counts(before, line, behind.drop_last(), name);
    } else {
        assert(all =~= before.push(line));
    }
}

/// A client accepts a response exactly where some line of it is the status line of a switch and its
/// token, the last one that it gives, is the one that answers the nonce. Another status, another
/// token, or none, is refused.
pub proof fn only_answers_are_accepted(head: Seq<u8>, nonce: Seq<char>)
    ensures
        ({
            let ls = text::lines(text::latin1(head));
            accepts(head, nonce) <==> {
                &&& exists|i: int|
                    0 <= i < ls.len() && (text::starts_with(#[trigger] ls[i], "HTTP/1.1 101"@)
                        || text::starts_with(ls[i], "HTTP/1.0 101"@))
                &&& last_header(ls, "sec-websocket-accept"@) == Some(accept_token(nonce))
            }
        }),
{
    let ls = text::lines(text::latin1(head));
    if exists|i: int|
        0 <= i < ls.len() && (text::starts_with(#[trigger] ls[i], "HTTP/1.1 101"@)
            || text::starts_with(ls[i], "HTTP/1.0 101"@)) {
        let i = choose|i: int|
            0 <= i < ls.len() && (text::starts_with(#[trigger] ls[i], "HTTP/1.1 101"@)
                || text::starts_with(ls[i], "HTTP/1.0 101"@));
        assert(switches(ls[i]));
    }
}

/// A request asks for a WebSocket exactly where its headers hold the name of the key somewhere, in
/// any case; and the key is then looked for among the lines of the headers.
pub proof fn upgrades_are_asked_for_by_name(headers: Seq<char>)
    ensures
        asks_for_upgrade(headers) <==> exists|a: Seq<char>, name: Seq<char>, b: Seq<char>|
            headers == #[trigger] (a + name + b) && text::lower_all(name) == "sec-websocket-key"@,
        client_key(headers) == last_header(text::split(headers, '\n'), "sec-websocket-key"@),
{
    text::parts_are_found_in_any_case(headers, "sec-websocket-key"@);
}

/// The request of a client, line by line: the path that it asks for, the host and the port, the
/// switch that it wants, its nonce and the version, and an empty line at the end.
pub proof fn requests_say_what_is_asked(
    host: Seq<char>,
    port: nat,
    path: Seq<char>,
    nonce: Seq<char>,
)
    ensures
        upgrade_request(host, port, path, nonce) == http::each_ended(
            seq![
                "GET "@ + path + " HTTP/1.1"@,
                "Host: "@ + host + ":"@ + text::decimal(port),
                "Upgrade: websocket"@,
                "Connection: Upgrade"@,
                "Sec-WebSocket-Key: "@ + nonce,
                "Sec-WebSocket-Version: 13"@,
                Seq::<char>::empty(),
            ],
            seq!['\r', '\n'],
        ),
{
    reveal_strlit(" HTTP/1.1");
    reveal_strlit(" HTTP/1.1\r\nHost: ");
    reveal_strlit("Host: ");
    reveal_strlit("\r\nUpgrade: websocket\r\nConnection: Upgrade");
    reveal_strlit("Upgrade: websocket");
    reveal_strlit("Connection: Upgrade");
    reveal_strlit("\r\nSec-WebSocket-Key: ");
    reveal_strlit("Sec-WebSocket-Key: ");
    reveal_strlit("\r\nSec-WebSocket-Version: 13\r\n\r\n");
    reveal_strlit("Sec-WebSocket-Version: 13");
    let crlf = seq!['\r', '\n'];
    let a = "GET "@ + path + " HTTP/1.1"@;
    let b = "Host: "@ + host + ":"@ + text::decimal(port);
    let c = "Upgrade: websocket"@;
    let d = "Connection: Upgrade"@;
    let e = "Sec-WebSocket-Key: "@ + nonce;
    let f = "Sec-WebSocket-Version: 13"@;
    let none = Seq::<char>::empty();
    lemma_four_ended(a, b, c, d);
    http::lemma_ended_push(seq![a, b, c, d], e, crlf);
    http::lemma_ended_push(seq![a, b, c, d, e], f, crlf);
    http::lemma_ended_push(seq![a, b, c, d, e, f], none, crlf);
    assert(seq![a, b, c, d].push(e) =~= seq![a, b, c, d, e]);
    assert(seq![a, b, c, d, e].push(f) =~= seq![a, b, c, d, e, f]);
    assert(seq![a, b, c, d, e, f].push(none) =~= seq![a, b, c, d, e, f, none]);
    assert(upgrade_request(host, port, path, nonce) =~= a + crlf + b + crlf + c + crlf + d + crlf
        + e + crlf + f + crlf + none + crlf);
}

/// The response of a server, line by line: the switch, the token that answers the key, and an empty
/// line at the end.
pub proof fn responses_say_what_is_accepted(key: Seq<char>)
    ensures
        upgrade_response(key) == http::each_ended(
            seq![
                "HTTP/1.1 101 Switching Protocols"@,
                "Upgrade: websocket"@,
                "Connection: Upgrade"@,
                "Sec-WebSocket-Accept: "@ + accept_token(key),
                Seq::<char>::empty(),
            ],
            seq!['\r', '\n'],
        ),
{
    reveal_strlit("HTTP/1.1 101 Switching Protocols\r\nUpgrade: websocket\r\nConnection: Upgrade");
    reveal_strlit("HTTP/1.1 101 Switching Protocols");
    reveal_strlit("Upgrade: websocket");
    reveal_strlit("Connection: Upgrade");
    reveal_strlit("\r\nSec-WebSocket-Accept: ");
    reveal_strlit("Sec-WebSocket-Accept: ");
    reveal_strlit("\r\n\r\n");
    let crlf = seq!['\r', '\n'];
    let a = "HTTP/1.1 101 Switching Protocols"@;
    let b = "Upgrade: websocket"@;
    let c = "Connection: Upgrade"@;
    let d = "Sec-WebSocket-Accept: "@ + accept_token(key);
    let none = Seq::<char>::empty();
    lemma_four_ended(a, b, c, d);
    http::lemma_ended_push(seq![a, b, c, d], none, crlf);
    assert(seq![a, b, c, d].push(none) =~= seq![a, b, c, d, none]);
    assert(upgrade_response(key) =~= a + crlf + b + crlf + c + crlf + d + crlf + none + crlf);
}

/// Four lines, written out.
proof fn lemma_four_ended(a: Seq<char>, b: Seq<char>, c: Seq<char>, d: Seq<char>)
    ensures
        ({
            let crlf = seq!['\r', '\n'];
            http::each_ended(seq![a, b, c, d], crlf) == a + crlf + b + crlf + c + crlf + d + crlf
        }),
{
    let crlf = seq!['\r', '\n'];
    let none = Seq::<Seq<char>>::empty();
    http::lemma_ended_push(none, a, crlf);
    http::lemma_ended_push(seq![a], b, crlf);
    http::lemma_ended_push(seq![a, b], c, crlf);
    http::lemma_ended_push(seq![a, b, c], d, crlf);
    assert(none.push(a) =~= seq![a]);
    assert(seq![a].push(b) =~= seq![a, b]);
    assert(seq![a, b].push(c) =~= seq![a, b, c]);
    assert(seq![a, b, c].push(d) =~= seq![a, b, c, d]);
    assert(http::each_ended(none, crlf) + a + crlf =~= a + crlf);
}

/// An address that was read is seen as what it holds.
pub proof fn addresses_are_seen_as_they_are(u: WsUrl)
    ensures
        u@.host == u.host@ && u@.port == u.port && u@.path == u.path@,
{
}

} // verus!
