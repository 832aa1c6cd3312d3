//! What the proxy reads from the first data of a client connection: whether
//! it is an HTTPS `CONNECT`, a plain HTTP request or something else; where a
//! `CONNECT` goes; and how a plain HTTP request for an absolute URL is
//! rewritten into one for the origin server, with the Host header
//! manipulations of the settings.

use crate::dns::{ascii_lower_char, ascii_upper_char};
use crate::dpi_engine::{connection_error, EngineError};
use crate::settings::Settings;
use crate::text::{
    decimal, push_decimal, trim_bounds, trim_end_char_bound, has_prefix_ignore_ascii_case_at,
    has_prefix_ignore_ascii_case, lemma_index_of, lemma_index_of_unique, push_chars, trim, trim_end_char,
    chars_to_string, contains_char, find_char, find_word_end, has_char, has_prefix_at,
    index_of, last_index_of, lemma_trim_start, lemma_word_end, line_bounds, nth_word,
    parse_unsigned, parse_unsigned_chars, push_char, rfind_char, skip_white_space, split_line,
    starts_with, str_chars,
};
use vstd::prelude::*;
use vstd::slice::slice_to_vec;
use vstd::utf8::encode_utf8;

verus! {

// ─── Header end ────────────────────────────────────────────────────────────

/// `"\r\n\r\n"` stands in `data` at `i`.
pub open spec fn blank_line_at(data: Seq<u8>, i: int) -> bool {
    0 <= i && i + 4 <= data.len() && data[i] == 13u8 && data[i + 1] == 10u8 && data[i + 2] == 13u8
        && data[i + 3] == 10u8
}

/// The index just after the first `"\r\n\r\n"` of `data`: where the body of
/// an HTTP message starts.
pub open spec fn header_end(data: Seq<u8>) -> Option<nat> {
    if exists|i: int| blank_line_at(data, i) {
        let i = choose|i: int| blank_line_at(data, i) && forall|j: int| 0 <= j < i ==> !blank_line_at(data, j);
        Some((i + 4) as nat)
    } else {
        None
    }
}

/// Finds the end of the HTTP header (`\r\n\r\n`) and returns the index of the
/// byte after it.
pub fn find_header_end(data: &[u8]) -> (r: Option<usize>)
    ensures
        match r {
            Some(p) => p >= 4 && blank_line_at(data@, p - 4) && forall|j: int|
                0 <= j < p - 4 ==> !blank_line_at(data@, j),
            None => forall|j: int| !blank_line_at(data@, j),
        },
        r matches Some(p) ==> header_end(data@) == Some(p as nat),
        r is None ==> header_end(data@) is None,
{
    let n = data.len();
    let bound = if n >= 3 {
        n - 3
    } else {
        0
    };
    let mut i: usize = 0;
    while i < bound
        invariant
            n == data@.len(),
            bound == if n >= 3 { n - 3 } else { 0 },
            i <= bound,
            forall|j: int| 0 <= j < i ==> !blank_line_at(data@, j),
        decreases bound - i,
    {
        if data[i] == 13 && data[i + 1] == 10 && data[i + 2] == 13 && data[i + 3] == 10 {
            proof {
                // The first blank line is the one `header_end` chooses: any
                // other choice would come before `i` or have `i` before it.
                let w = choose|k: int|
                    blank_line_at(data@, k) && forall|j: int| 0 <= j < k ==> !blank_line_at(data@, j);
                assert(blank_line_at(data@, i as int));
                if w > i {
                    assert(!blank_line_at(data@, i as int));
                }
            }
            return Some(i + 4);
        }
        i = i + 1;
    }
    None
}

// ─── TLS ───────────────────────────────────────────────────────────────────

/// Whether `data` starts a TLS handshake record (content type 0x16) whose
/// first message is a ClientHello (handshake type 0x01, at offset 5).
pub fn is_client_hello(data: &[u8]) -> (r: bool)
    ensures
        r == (data@.len() >= 6 && data@[0] == 0x16u8 && data@[5] == 0x01u8),
{
    data.len() >= 6 && data[0] == 0x16 && data[5] == 0x01
}

// ─── Lossy decoding ────────────────────────────────────────────────────────

/// What `String::from_utf8_lossy` makes of `bytes`: the text they encode,
/// with each invalid sequence replaced by U+FFFD.
pub uninterp spec fn utf8_lossy(bytes: Seq<u8>) -> Seq<char>;

/// `String::from_utf8_lossy`: the text `data` encodes, with each invalid
/// sequence replaced by U+FFFD. As its documentation states, valid UTF-8 is
/// decoded unchanged; decoding goes from the start, so a valid UTF-8 prefix
/// of `data` comes out as its own text, followed by what the rest decodes
/// to; a first byte that begins no UTF-8 sequence is replaced by U+FFFD.
/// Nothing more is stated of how an invalid sequence is cut up and replaced.
#[verifier::external_body]
pub fn decode_lossy(data: &[u8]) -> (s: String)
    ensures
        data@.len() > 0 && begins_no_utf8(data@[0]) ==> s@.len() > 0 && s@[0] == '\u{FFFD}',
        s@ == utf8_lossy(data@),
        vstd::utf8::valid_utf8(data@) ==> s@ == vstd::utf8::decode_utf8(data@),
        forall|i: int|
            0 <= i <= data@.len() && #[trigger] vstd::utf8::valid_utf8(data@.subrange(0, i)) ==> s@
                == vstd::utf8::decode_utf8(data@.subrange(0, i)) + utf8_lossy(
                data@.subrange(i, data@.len() as int),
            ),
{
    String::from_utf8_lossy(data).into_owned()
}

/// A byte that begins no UTF-8 sequence: a continuation byte, an overlong
/// lead (0xC0, 0xC1) or a byte above 0xF4.
pub open spec fn begins_no_utf8(b: u8) -> bool {
    0x80 <= b <= 0xC1 || b >= 0xF5
}

/// `t + x` starts with `p` exactly when `t` does, once `t` is as long as `p`.
proof fn lemma_starts_with_longer(t: Seq<char>, x: Seq<char>, p: Seq<char>)
    requires
        p.len() <= t.len(),
    ensures
        starts_with(t + x, p) == starts_with(t, p),
{
    assert((t + x).take(p.len() as int) =~= t.take(p.len() as int));
}

// ─── Request kinds ─────────────────────────────────────────────────────────

/// What the first data of a client connection is.
#[derive(Clone, Copy, Debug, PartialEq, Eq, Structural)]
pub enum RequestKind {
    /// An HTTPS tunnel request (`CONNECT host:port ...`).
    Connect,
    /// A plain HTTP request through the proxy.
    Http,
    /// Anything else; the connection is closed.
    Unknown,
}

/// The request methods that mark plain HTTP.
pub open spec fn http_method_prefixes() -> Seq<Seq<char>> {
    seq!["GET "@, "POST "@, "PUT "@, "DELETE "@, "HEAD "@, "OPTIONS "@, "PATCH "@]
}

/// Whether `data` starts like a plain HTTP request: with one of the methods
/// GET, POST, PUT, DELETE, HEAD, OPTIONS, PATCH and a space.
pub open spec fn spec_is_http_request(data: Seq<char>) -> bool {
    exists|i: int| 0 <= i < http_method_prefixes().len() && starts_with(data, #[trigger] http_method_prefixes()[i])
}

/// The kind of a request whose text is `text`.
pub open spec fn spec_classify_request(text: Seq<char>) -> RequestKind {
    if starts_with(text, "CONNECT "@) {
        RequestKind::Connect
    } else if spec_is_http_request(text) {
        RequestKind::Http
    } else {
        RequestKind::Unknown
    }
}

fn prefix_matches(cs: &Vec<char>, p: &str) -> (r: bool)
    ensures
        r == starts_with(cs@, p@),
{
    let pc = str_chars(p);
    assert(cs@.subrange(0, cs@.len() as int) =~= cs@);
    has_prefix_at(cs, 0, cs.len(), &pc)
}

fn is_http_request_chars(cs: &Vec<char>) -> (r: bool)
    ensures
        r == spec_is_http_request(cs@),
{
    let methods: [&str; 7] = ["GET ", "POST ", "PUT ", "DELETE ", "HEAD ", "OPTIONS ", "PATCH "];
    assert forall|j: int| 0 <= j < 7 implies #[trigger] methods@[j]@ == http_method_prefixes()[j] by {}
    let mut i: usize = 0;
    while i < 7
        invariant
            i <= 7,
            forall|j: int| 0 <= j < 7 ==> #[trigger] methods@[j]@ == http_method_prefixes()[j],
            forall|j: int| 0 <= j < i ==> !starts_with(cs@, #[trigger] http_method_prefixes()[j]),
        decreases 7 - i,
    {
        if prefix_matches(cs, methods[i]) {
            assert(starts_with(cs@, http_method_prefixes()[i as int]));
            return true;
        }
        i = i + 1;
    }
    false
}

/// Whether `data` starts like a plain HTTP request.
pub fn is_http_request(data: &str) -> (r: bool)
    ensures
        r == spec_is_http_request(data@),
{
    let cs = str_chars(data);
    is_http_request_chars(&cs)
}

/// The kind of a request whose text is `text`.
pub fn classify_request(text: &str) -> (k: RequestKind)
    ensures
        k == spec_classify_request(text@),
{
    let cs = str_chars(text);
    if prefix_matches(&cs, "CONNECT ") {
        RequestKind::Connect
    } else if is_http_request_chars(&cs) {
        RequestKind::Http
    } else {
        RequestKind::Unknown
    }
}

/// What a valid UTF-8 start `t` of a client's first data settles of its
/// kind `k`: a start that begins with "CONNECT " makes it a tunnel request, a
/// start that begins with an HTTP method a plain request, and a start of 8
/// characters or more (as long as the longest method and "CONNECT ") settles
/// it whatever follows.
pub open spec fn kind_settled_by(t: Seq<char>, k: RequestKind) -> bool {
    &&& starts_with(t, "CONNECT "@) ==> k == RequestKind::Connect
    &&& spec_is_http_request(t) ==> k == RequestKind::Http
    &&& t.len() >= 8 ==> k == spec_classify_request(t)
}

/// The kind of text `t + x` is settled by its start `t`.
proof fn lemma_kind_settled_by_start(t: Seq<char>, x: Seq<char>)
    ensures
        kind_settled_by(t, spec_classify_request(t + x)),
{
    let c = "CONNECT "@;
    let m = http_method_prefixes();
    reveal_strlit("CONNECT ");
    reveal_strlit("GET ");
    reveal_strlit("POST ");
    reveal_strlit("PUT ");
    reveal_strlit("DELETE ");
    reveal_strlit("HEAD ");
    reveal_strlit("OPTIONS ");
    reveal_strlit("PATCH ");
    assert(forall|j: int| 0 <= j < 7 ==> (#[trigger] m[j]).len() <= 8 && m[j].len() >= 1 && m[j][0] != 'C');
    if starts_with(t, c) {
        lemma_starts_with_longer(t, x, c);
    }
    if spec_is_http_request(t) {
        let j = choose|j: int| 0 <= j < m.len() && starts_with(t, #[trigger] m[j]);
        lemma_starts_with_longer(t, x, m[j]);
        assert((t + x)[0] == m[j][0]);
        assert(!starts_with(t + x, c)) by {
            if starts_with(t + x, c) {
                assert((t + x).take(8)[0] == c[0]);
            }
        }
    }
    if t.len() >= 8 {
        lemma_starts_with_longer(t, x, c);
        assert forall|j: int| 0 <= j < m.len() implies starts_with(t + x, #[trigger] m[j]) == starts_with(
            t,
            m[j],
        ) by {
            lemma_starts_with_longer(t, x, m[j]);
        }
        assert(spec_is_http_request(t + x) == spec_is_http_request(t));
    }
}

/// A text that starts with U+FFFD is of no known kind.
proof fn lemma_replacement_start_unknown(t: Seq<char>)
    requires
        t.len() > 0,
        t[0] == '\u{FFFD}',
    ensures
        spec_classify_request(t) == RequestKind::Unknown,
{
    let c = "CONNECT "@;
    let m = http_method_prefixes();
    reveal_strlit("CONNECT ");
    reveal_strlit("GET ");
    reveal_strlit("POST ");
    reveal_strlit("PUT ");
    reveal_strlit("DELETE ");
    reveal_strlit("HEAD ");
    reveal_strlit("OPTIONS ");
    reveal_strlit("PATCH ");
    assert(!starts_with(t, c)) by {
        if starts_with(t, c) {
            assert(t.take(8)[0] == c[0]);
        }
    }
    assert forall|j: int| 0 <= j < m.len() implies !starts_with(t, #[trigger] m[j]) by {
        if starts_with(t, m[j]) {
            assert(t.take(m[j].len() as int)[0] == m[j][0]);
        }
    }
}

/// The kind of the first data a client sent, read as text with invalid
/// UTF-8 replaced; every valid UTF-8 start of the data settles the kind as
/// [`kind_settled_by`] says, whatever bytes follow, and data whose first
/// byte begins no UTF-8 sequence is of no known kind.
pub fn classify_connection(data: &[u8]) -> (k: RequestKind)
    ensures
        k == spec_classify_request(utf8_lossy(data@)),
        data@.len() > 0 && begins_no_utf8(data@[0]) ==> k == RequestKind::Unknown,
        forall|i: int|
            0 <= i <= data@.len() && #[trigger] vstd::utf8::valid_utf8(data@.subrange(0, i)) ==> kind_settled_by(
                vstd::utf8::decode_utf8(data@.subrange(0, i)),
                k,
            ),
{
    let text = decode_lossy(data);
    let k = classify_request(text.as_str());
    proof {
        if data@.len() > 0 && begins_no_utf8(data@[0]) {
            lemma_replacement_start_unknown(text@);
        }
        assert forall|i: int|
            0 <= i <= data@.len() && #[trigger] vstd::utf8::valid_utf8(data@.subrange(0, i)) implies kind_settled_by(
                vstd::utf8::decode_utf8(data@.subrange(0, i)),
                k,
            ) by {
            lemma_kind_settled_by_start(
                vstd::utf8::decode_utf8(data@.subrange(0, i)),
                utf8_lossy(data@.subrange(i, data@.len() as int)),
            );
        }
    }
    k
}

// ─── Replies to the client ─────────────────────────────────────────────────

/// What the proxy answers a client once it tried to reach the origin server:
/// "HTTP/1.1 200 Connection Established" when it could, "HTTP/1.1 502 Bad
/// Gateway" when it could not, each with an empty header.
pub open spec fn spec_connect_reply(connected: bool) -> Seq<char> {
    if connected {
        "HTTP/1.1 200 Connection Established\r\n\r\n"@
    } else {
        "HTTP/1.1 502 Bad Gateway\r\n\r\n"@
    }
}

/// The proxy's answer to a client, given whether the origin server was
/// reached.
pub fn connect_reply(connected: bool) -> (r: String)
    ensures
        r@ == spec_connect_reply(connected),
{
    if connected {
        String::from_str("HTTP/1.1 200 Connection Established\r\n\r\n")
    } else {
        String::from_str("HTTP/1.1 502 Bad Gateway\r\n\r\n")
    }
}

// ─── CONNECT ───────────────────────────────────────────────────────────────

/// The first line of `text`, as `text.lines().next().unwrap_or("")` gives it.
pub open spec fn first_line(text: Seq<char>) -> Seq<char> {
    if text.len() == 0 {
        Seq::empty()
    } else {
        split_line(text).0
    }
}

/// What follows the first line of `text` and its line ending.
pub open spec fn after_first_line(text: Seq<char>) -> Seq<char> {
    if text.len() == 0 {
        Seq::empty()
    } else {
        split_line(text).1
    }
}

/// The target of a `CONNECT` request: the second word of its first line, with
/// ":443" added when it names no port (holds no ':'); `None` when the first
/// line has fewer than two words.
pub open spec fn spec_connect_target(text: Seq<char>) -> Option<Seq<char>> {
    match nth_word(first_line(text), 1) {
        None => None,
        Some(w) => Some(
            if has_char(w, ':') {
                w
            } else {
                w + ":443"@
            },
        ),
    }
}

/// The start and end of the first line of `text`: `(0, 0, 0)` for an empty
/// text, else `(0, e, next)` with `cs[0..e]` the line and `cs[next..]` the rest.
fn first_line_bounds(cs: &Vec<char>) -> (r: (usize, usize))
    ensures
        r.0 <= r.1 <= cs@.len(),
        first_line(cs@) == cs@.subrange(0, r.0 as int),
        after_first_line(cs@) == cs@.subrange(r.1 as int, cs@.len() as int),
{
    let n = cs.len();
    if n == 0 {
        assert(cs@.subrange(0, 0) =~= Seq::<char>::empty());
        (0, 0)
    } else {
        assert(cs@.subrange(0, n as int) =~= cs@);
        line_bounds(cs, 0, n)
    }
}

/// Where a `CONNECT` request goes: the second word of its first line, with
/// ":443" added when it names no port. A first line with fewer than two words
/// is refused with `ConnectionError("Geçersiz CONNECT")`.
pub fn connect_target(text: &str) -> (r: Result<String, EngineError>)
    ensures
        match r {
            Ok(t) => spec_connect_target(text@) == Some(t@),
            Err(e) => spec_connect_target(text@) is None && (e matches EngineError::ConnectionError(
                m,
            ) && m@ == "Geçersiz CONNECT"@),
        },
{
    let cs = str_chars(text);
    let (le, _) = first_line_bounds(&cs);
    let ghost line = cs@.subrange(0, le as int);
    // The first word.
    let a0 = skip_white_space(&cs, 0, le);
    let ghost t0 = cs@.subrange(a0 as int, le as int);
    if a0 == le {
        assert(nth_word(line, 1) is None);
        return Err(connection_error("Geçersiz CONNECT"));
    }
    let e0 = find_word_end(&cs, a0, le);
    proof {
        lemma_trim_start(line);
        lemma_word_end(t0);
        assert(t0.skip(e0 - a0) =~= cs@.subrange(e0 as int, le as int));
        assert(nth_word(line, 1) == nth_word(cs@.subrange(e0 as int, le as int), 0));
    }
    // The second word.
    let a1 = skip_white_space(&cs, e0, le);
    if a1 == le {
        return Err(connection_error("Geçersiz CONNECT"));
    }
    let e1 = find_word_end(&cs, a1, le);
    proof {
        assert(cs@.subrange(a1 as int, le as int).take(e1 - a1) =~= cs@.subrange(
            a1 as int,
            e1 as int,
        ));
    }
    let mut t = chars_to_string(&cs, a1, e1);
    if !contains_char(&cs, a1, e1, ':') {
        t.append(":443");
    }
    Ok(t)
}

// ─── Absolute URLs ─────────────────────────────────────────────────────────

/// `u` without a leading "http://" or "https://".
pub open spec fn strip_scheme(u: Seq<char>) -> Seq<char> {
    if starts_with(u, "http://"@) {
        u.skip("http://"@.len() as int)
    } else if starts_with(u, "https://"@) {
        u.skip("https://"@.len() as int)
    } else {
        u
    }
}

/// The host and port of `hp` ("host" or "host:port"): the text after the last
/// ':' is the port when it parses as a `u16`; otherwise all of `hp` is the
/// host and the port is 80.
pub open spec fn split_host_port(hp: Seq<char>) -> (Seq<char>, u16) {
    let c = last_index_of(hp, ':');
    if c >= 0 {
        match parse_unsigned(hp.skip(c + 1), 65535) {
            Ok(p) => (hp.take(c), p as u16),
            Err(_) => (hp, 80),
        }
    } else {
        (hp, 80)
    }
}

/// An absolute proxy URL split into host, port and path:
/// "http://example.com:8080/path" gives ("example.com", 8080, "/path").
/// A URL that starts with '/' is refused with "Relative URL", one with an
/// empty host with "Boş host".
pub open spec fn spec_parse_proxy_url(u: Seq<char>) -> Result<(Seq<char>, u16, Seq<char>), Seq<char>> {
    if u.len() > 0 && u[0] == '/' {
        Err("Relative URL"@)
    } else {
        let w = strip_scheme(u);
        let i = index_of(w, '/');
        let hp = w.take(i);
        let path = if i < w.len() {
            w.skip(i)
        } else {
            seq!['/']
        };
        let (host, port) = split_host_port(hp);
        if host.len() == 0 {
            Err("Boş host"@)
        } else {
            Ok((host, port, path))
        }
    }
}

/// The parts of an absolute URL.
#[derive(Debug)]
pub struct ProxyUrl {
    pub host: String,
    pub port: u16,
    pub path: String,
}

/// Parses `cs[lo..hi]` as [`spec_parse_proxy_url`] does.
fn parse_proxy_url_chars(cs: &Vec<char>, lo: usize, hi: usize) -> (r: Result<ProxyUrl, EngineError>)
    requires
        lo <= hi <= cs@.len(),
    ensures
        match r {
            Ok(u) => spec_parse_proxy_url(cs@.subrange(lo as int, hi as int)) == Ok::<
                (Seq<char>, u16, Seq<char>),
                Seq<char>,
            >((u.host@, u.port, u.path@)),
            Err(e) => exists|m: Seq<char>|
                spec_parse_proxy_url(cs@.subrange(lo as int, hi as int)) == Err::<
                    (Seq<char>, u16, Seq<char>),
                    Seq<char>,
                >(m) && (e matches EngineError::ConnectionError(em) && em@ == m),
        },
{
    let ghost u = cs@.subrange(lo as int, hi as int);
    if lo < hi && cs[lo] == '/' {
        let e = connection_error("Relative URL");
        assert(spec_parse_proxy_url(u) == Err::<(Seq<char>, u16, Seq<char>), Seq<char>>(
            "Relative URL"@,
        ));
        return Err(e);
    }
    let http = str_chars("http://");
    let https = str_chars("https://");
    let start = if has_prefix_at(cs, lo, hi, &http) {
        lo + http.len()
    } else if has_prefix_at(cs, lo, hi, &https) {
        lo + https.len()
    } else {
        lo
    };
    let ghost w = cs@.subrange(start as int, hi as int);
    assert(w =~= strip_scheme(u));
    let i = find_char(cs, start, hi, '/');
    let ghost hp = cs@.subrange(start as int, i as int);
    assert(hp =~= w.take(i - start));
    let path = if i < hi {
        assert(cs@.subrange(i as int, hi as int) =~= w.skip(i - start));
        chars_to_string(cs, i, hi)
    } else {
        let mut p = String::new();
        push_char(&mut p, '/');
        assert(p@ =~= seq!['/']);
        p
    };
    let (host_end, port) = match rfind_char(cs, start, i, ':') {
        Some(c) => {
            assert(hp.skip(c - start + 1) =~= cs@.subrange(c + 1, i as int));
            assert(hp.take(c - start) =~= cs@.subrange(start as int, c as int));
            match parse_unsigned_chars(cs, c + 1, i, 65535) {
                Ok(p) => (c, p as u16),
                Err(_) => (i, 80u16),
            }
        },
        None => (i, 80u16),
    };
    assert(split_host_port(hp) == (cs@.subrange(start as int, host_end as int), port));
    if host_end == start {
        let e = connection_error("Boş host");
        assert(spec_parse_proxy_url(u) == Err::<(Seq<char>, u16, Seq<char>), Seq<char>>(
            "Boş host"@,
        ));
        return Err(e);
    }
    let host = chars_to_string(cs, start, host_end);
    Ok(ProxyUrl { host, port, path })
}

/// Splits an absolute proxy URL into host, port and path:
/// "http://example.com:8080/path" gives ("example.com", 8080, "/path").
/// A relative URL is refused with `ConnectionError("Relative URL")`, an empty
/// host with `ConnectionError("Boş host")`.
pub fn parse_proxy_url(url: &str) -> (r: Result<ProxyUrl, EngineError>)
    ensures
        match r {
            Ok(u) => spec_parse_proxy_url(url@) == Ok::<(Seq<char>, u16, Seq<char>), Seq<char>>(
                (u.host@, u.port, u.path@),
            ),
            Err(e) => exists|m: Seq<char>|
                spec_parse_proxy_url(url@) == Err::<(Seq<char>, u16, Seq<char>), Seq<char>>(m)
                    && (e matches EngineError::ConnectionError(em) && em@ == m),
        },
{
    let cs = str_chars(url);
    assert(cs@.subrange(0, cs@.len() as int) =~= cs@);
    parse_proxy_url_chars(&cs, 0, cs.len())
}

// ─── Connecting to a target ────────────────────────────────────────────────

/// A target "host:port" split at its last ':' with the port parsed as a
/// `u16`; "Geçersiz adres: <target>" when there is no ':', "Geçersiz port:
/// <port text>" when the port does not parse.
pub open spec fn spec_split_target(t: Seq<char>) -> Result<(Seq<char>, u16), Seq<char>> {
    let c = last_index_of(t, ':');
    if c < 0 {
        Err("Geçersiz adres: "@ + t)
    } else {
        match parse_unsigned(t.skip(c + 1), 65535) {
            Ok(p) => Ok((t.take(c), p as u16)),
            Err(_) => Err("Geçersiz port: "@ + t.skip(c + 1)),
        }
    }
}

/// A host name and a port.
#[derive(Debug)]
pub struct HostPort {
    pub host: String,
    pub port: u16,
}

/// Splits a connection target "host:port" at its last ':'.
pub fn split_target(target: &str) -> (r: Result<HostPort, EngineError>)
    ensures
        match r {
            Ok(hp) => spec_split_target(target@) == Ok::<(Seq<char>, u16), Seq<char>>(
                (hp.host@, hp.port),
            ),
            Err(e) => exists|m: Seq<char>|
                spec_split_target(target@) == Err::<(Seq<char>, u16), Seq<char>>(m) && (e matches EngineError::ConnectionError(
                    em,
                ) && em@ == m),
        },
{
    let cs = str_chars(target);
    let n = cs.len();
    assert(cs@.subrange(0, n as int) =~= cs@);
    match rfind_char(&cs, 0, n, ':') {
        None => {
            let mut m = String::from_str("Geçersiz adres: ");
            m.append(target);
            Err(EngineError::ConnectionError(m))
        },
        Some(c) => {
            assert(cs@.skip(c + 1) =~= cs@.subrange(c + 1, n as int));
            assert(cs@.take(c as int) =~= cs@.subrange(0, c as int));
            match parse_unsigned_chars(&cs, c + 1, n, 65535) {
                Ok(p) => Ok(HostPort { host: chars_to_string(&cs, 0, c), port: p as u16 }),
                Err(_) => {
                    let mut m = String::from_str("Geçersiz port: ");
                    push_chars(&mut m, &cs, c + 1, n);
                    Err(EngineError::ConnectionError(m))
                },
            }
        },
    }
}

// ─── Alternating case ──────────────────────────────────────────────────────

/// What `char::to_lowercase` gives for `c` (one or more characters).
pub uninterp spec fn char_lowercase(c: char) -> Seq<char>;

/// What `char::to_uppercase` gives for `c` (one or more characters).
pub uninterp spec fn char_uppercase(c: char) -> Seq<char>;

/// `char::to_lowercase`, collected into a string. Its documentation gives
/// the Unicode lower case, which for an ASCII character is the character with
/// an ASCII upper-case letter mapped to lower case; what it gives for another
/// character is left unsaid.
#[verifier::external_body]
fn lowercase_of(c: char) -> (r: String)
    ensures
        r@ == char_lowercase(c),
        (c as u32) < 128 ==> r@ == seq![ascii_lower_char(c)],
{
    c.to_lowercase().to_string()
}

/// `char::to_uppercase`, collected into a string. For an ASCII character it
/// is the character with an ASCII lower-case letter mapped to upper case;
/// what it gives for another character is left unsaid.
#[verifier::external_body]
fn uppercase_of(c: char) -> (r: String)
    ensures
        r@ == char_uppercase(c),
        (c as u32) < 128 ==> r@ == seq![ascii_upper_char(c)],
{
    c.to_uppercase().to_string()
}

/// `s` with the characters at even positions (from 0) in lower case and those
/// at odd positions in upper case: "Host" becomes "hOsT".
pub open spec fn mixcase(s: Seq<char>) -> Seq<char>
    decreases s.len(),
{
    if s.len() == 0 {
        Seq::empty()
    } else {
        mixcase(s.drop_last()) + if (s.len() - 1) % 2 == 0 {
            char_lowercase(s.last())
        } else {
            char_uppercase(s.last())
        }
    }
}

/// Every character of `s` is ASCII.
pub open spec fn all_ascii(s: Seq<char>) -> bool {
    forall|i: int| 0 <= i < s.len() ==> (#[trigger] s[i] as u32) < 128
}

/// The alternating case of an ASCII text: ASCII letters at even positions in
/// lower case, at odd positions in upper case.
pub open spec fn ascii_mixcase(s: Seq<char>) -> Seq<char> {
    Seq::new(
        s.len(),
        |i: int|
            if i % 2 == 0 {
                ascii_lower_char(s[i])
            } else {
                ascii_upper_char(s[i])
            },
    )
}

/// `s` in alternating case, lower case first; for an ASCII text that is
/// [`ascii_mixcase`].
pub fn mixcase_string(s: &str) -> (r: String)
    ensures
        r@ == mixcase(s@),
        all_ascii(s@) ==> r@ == ascii_mixcase(s@),
{
    let cs = str_chars(s);
    let mut r = String::new();
    let mut i: usize = 0;
    while i < cs.len()
        invariant
            cs@ == s@,
            i <= cs@.len(),
            r@ == mixcase(cs@.take(i as int)),
            all_ascii(cs@) ==> r@ == ascii_mixcase(cs@.take(i as int)),
        decreases cs@.len() - i,
    {
        assert(cs@.take(i + 1).drop_last() =~= cs@.take(i as int));
        let part = if i % 2 == 0 {
            lowercase_of(cs[i])
        } else {
            uppercase_of(cs[i])
        };
        r.append(part.as_str());
        proof {
            if all_ascii(cs@) {
                assert((cs@[i as int] as u32) < 128);
                assert(ascii_mixcase(cs@.take(i + 1)) =~= ascii_mixcase(cs@.take(i as int)) + part@);
            }
        }
        i = i + 1;
    }
    assert(cs@.take(cs@.len() as int) =~= s@);
    r
}

/// "Host" in alternating case is "hOsT".
fn mixcase_host() -> (r: String)
    ensures
        r@ == "hOsT"@,
{
    let r = mixcase_string("Host");
    proof {
        reveal_strlit("Host");
        reveal_strlit("hOsT");
        assert(all_ascii("Host"@));
        assert(ascii_mixcase("Host"@) =~= "hOsT"@);
    }
    r
}

// ─── Rewriting plain HTTP requests ─────────────────────────────────────────

/// The method, URL and version of a request line: the text before its first
/// space, between its first and second space, and after its second space
/// (`splitn(3, ' ')`); `None` when it has fewer than two spaces.
pub open spec fn request_line_parts(line: Seq<char>) -> Option<(Seq<char>, Seq<char>, Seq<char>)> {
    let i1 = index_of(line, ' ');
    if i1 >= line.len() {
        None
    } else {
        let rest = line.skip(i1 + 1);
        let i2 = index_of(rest, ' ');
        if i2 >= rest.len() {
            None
        } else {
            Some((line.take(i1), rest.take(i2), rest.skip(i2 + 1)))
        }
    }
}

/// The text after the first ':' of `line`, or `default` when it has none
/// (`line.splitn(2, ':').nth(1).unwrap_or(default)`).
pub open spec fn after_first_colon(line: Seq<char>, default: Seq<char>) -> Seq<char> {
    let i = index_of(line, ':');
    if i < line.len() {
        line.skip(i + 1)
    } else {
        default
    }
}

/// How one non-empty header line is forwarded, and whether it was a Host
/// header. A line is recognised by its name, compared with ASCII letters
/// folded to lower case; the Unicode lower case of a line starts with one of
/// these names exactly when this comparison holds.
/// - Host: the name becomes "Host", or its alternating-case form "hOsT"
///   when `mix` is set; the trimmed value gets a single trailing dot when `dot` is
///   set.
/// - Proxy-Connection: becomes a Connection header with the trimmed value.
/// - Any other line is kept.
pub open spec fn rewrite_header_line(line: Seq<char>, mix: bool, dot: bool) -> (Seq<char>, bool) {
    if has_prefix_ignore_ascii_case(line, "host:"@) {
        let v = trim(after_first_colon(line, Seq::empty()));
        let name = if mix {
            "hOsT"@
        } else {
            "Host"@
        };
        let value = if dot {
            trim_end_char(v, '.') + seq!['.']
        } else {
            v
        };
        (name + ": "@ + value + "\r\n"@, true)
    } else if has_prefix_ignore_ascii_case(line, "proxy-connection:"@) {
        ("Connection: "@ + trim(after_first_colon(line, "keep-alive"@)) + "\r\n"@, false)
    } else {
        (line + "\r\n"@, false)
    }
}

/// The forwarded header lines of `rest` up to its first empty line, and
/// whether one of them was a Host header.
pub open spec fn rewrite_headers(rest: Seq<char>, mix: bool, dot: bool) -> (Seq<char>, bool)
    decreases rest.len(),
{
    if rest.len() == 0 {
        (Seq::empty(), false)
    } else {
        let (line, after) = split_line(rest);
        if line.len() == 0 {
            (Seq::empty(), false)
        } else {
            proof {
                lemma_split_line_shorter(rest);
            }
            let (o, h) = rewrite_header_line(line, mix, dot);
            let (o2, h2) = rewrite_headers(after, mix, dot);
            (o + o2, h || h2)
        }
    }
}

pub proof fn lemma_split_line_shorter(s: Seq<char>)
    requires
        s.len() > 0,
    ensures
        split_line(s).1.len() < s.len(),
{
    lemma_index_of(s, '\n');
}

/// The head of a plain HTTP request as it is forwarded, with the host and
/// port it goes to, for a request whose text is `text`:
/// - the request line "METHOD URL VERSION" becomes "METHOD PATH VERSION";
/// - with header padding, the line " " follows it;
/// - the header lines up to the first empty line are rewritten by
///   [`rewrite_header_line`];
/// - "Host: <host>" is added when there was no Host header;
/// - an empty line ends the head.
/// A request line with fewer than two spaces gives "Geçersiz HTTP isteği";
/// a URL that [`spec_parse_proxy_url`] refuses gives its message.
pub open spec fn rewritten_head(text: Seq<char>, settings: Settings) -> Result<
    (Seq<char>, u16, Seq<char>),
    Seq<char>,
> {
    match request_line_parts(first_line(text)) {
        None => Err("Geçersiz HTTP isteği"@),
        Some((method, url, version)) => match spec_parse_proxy_url(url) {
            Err(m) => Err(m),
            Ok((host, port, path)) => {
                let (headers, has_host) = rewrite_headers(
                    after_first_line(text),
                    settings.enable_host_mixcase,
                    settings.enable_dot_after_host,
                );
                let head = method + seq![' '] + path + seq![' '] + version + "\r\n"@ + (if settings.enable_header_padding {
                    " \r\n"@
                } else {
                    Seq::empty()
                }) + headers + (if has_host {
                    Seq::empty()
                } else {
                    "Host: "@ + host + "\r\n"@
                }) + "\r\n"@;
                Ok((host, port, head))
            },
        },
    }
}

/// The body that follows the head in the raw data: the bytes after the first
/// `"\r\n\r\n"`, if any.
pub open spec fn request_body(data: Seq<u8>) -> Seq<u8> {
    match header_end(data) {
        Some(p) => if p < data.len() {
            data.skip(p as int)
        } else {
            Seq::empty()
        },
        None => Seq::empty(),
    }
}

/// A plain HTTP request ready to be forwarded.
#[derive(Debug)]
pub struct HttpForward {
    /// The origin server's host.
    pub host: String,
    /// The origin server's port.
    pub port: u16,
    /// "host:port", the address to connect to.
    pub target: String,
    /// The rewritten request: the UTF-8 encoded head, then the body bytes.
    pub request: Vec<u8>,
}

/// Appends the forwarded form of the header line `cs[lo..hi]` to `out` and
/// tells whether it was a Host header.
fn rewrite_header_line_into(
    out: &mut String,
    cs: &Vec<char>,
    lo: usize,
    hi: usize,
    mix: bool,
    dot: bool,
) -> (is_host: bool)
    requires
        lo < hi <= cs@.len(),
    ensures
        final(out)@ == old(out)@ + rewrite_header_line(cs@.subrange(lo as int, hi as int), mix, dot).0,
        is_host == rewrite_header_line(cs@.subrange(lo as int, hi as int), mix, dot).1,
{
    let ghost line = cs@.subrange(lo as int, hi as int);
    let host_name = str_chars("host:");
    let proxy_connection = str_chars("proxy-connection:");
    if has_prefix_ignore_ascii_case_at(cs, lo, hi, &host_name) {
        let c = find_char(cs, lo, hi, ':');
        let (vs, ve) = if c < hi {
            assert(line.skip(c - lo + 1) =~= cs@.subrange(c + 1, hi as int));
            trim_bounds(cs, c + 1, hi)
        } else {
            assert(cs@.subrange(hi as int, hi as int) =~= Seq::<char>::empty());
            assert(trim(Seq::<char>::empty()) =~= Seq::<char>::empty());
            (hi, hi)
        };
        let name = if mix {
            mixcase_host()
        } else {
            String::from_str("Host")
        };
        out.append(name.as_str());
        out.append(": ");
        if dot {
            let e = trim_end_char_bound(cs, vs, ve, '.');
            push_chars(out, cs, vs, e);
            push_char(out, '.');
        } else {
            push_chars(out, cs, vs, ve);
        }
        out.append("\r\n");
        true
    } else if has_prefix_ignore_ascii_case_at(cs, lo, hi, &proxy_connection) {
        out.append("Connection: ");
        let c = find_char(cs, lo, hi, ':');
        if c < hi {
            assert(line.skip(c - lo + 1) =~= cs@.subrange(c + 1, hi as int));
            let (vs, ve) = trim_bounds(cs, c + 1, hi);
            push_chars(out, cs, vs, ve);
        } else {
            let keep_alive = str_chars("keep-alive");
            assert(keep_alive@.subrange(0, keep_alive@.len() as int) =~= keep_alive@);
            let (vs, ve) = trim_bounds(&keep_alive, 0, keep_alive.len());
            push_chars(out, &keep_alive, vs, ve);
        }
        out.append("\r\n");
        false
    } else {
        push_chars(out, cs, lo, hi);
        out.append("\r\n");
        false
    }
}

/// The forwarded header lines of `cs[rs..]` and whether one was a Host header.
fn rewrite_headers_of(cs: &Vec<char>, rs: usize, mix: bool, dot: bool) -> (r: (String, bool))
    requires
        rs <= cs@.len(),
    ensures
        rewrite_headers(cs@.subrange(rs as int, cs@.len() as int), mix, dot) == (r.0@, r.1),
{
    let n = cs.len();
    let ghost all = cs@.subrange(rs as int, n as int);
    let mut headers = String::new();
    let mut has_host = false;
    let mut pos = rs;
    assert(cs@.subrange(n as int, n as int) =~= Seq::<char>::empty());
    while pos < n
        invariant
            rs <= pos <= n,
            n == cs@.len(),
            all == cs@.subrange(rs as int, n as int),
            rewrite_headers(all, mix, dot).0 == headers@ + rewrite_headers(
                cs@.subrange(pos as int, n as int),
                mix,
                dot,
            ).0,
            rewrite_headers(all, mix, dot).1 == (has_host || rewrite_headers(
                cs@.subrange(pos as int, n as int),
                mix,
                dot,
            ).1),
        ensures
            rewrite_headers(cs@.subrange(pos as int, n as int), mix, dot) == (
                Seq::<char>::empty(),
                false,
            ),
        decreases n - pos,
    {
        let (e, next) = line_bounds(cs, pos, n);
        if e == pos {
            assert(cs@.subrange(pos as int, e as int) =~= Seq::<char>::empty());
            assert(rewrite_headers(cs@.subrange(pos as int, n as int), mix, dot) == (
                Seq::<char>::empty(),
                false,
            ));
            break;
        }
        let h = rewrite_header_line_into(&mut headers, cs, pos, e, mix, dot);
        has_host = has_host || h;
        pos = next;
    }
    assert(headers@ =~= headers@ + Seq::<char>::empty());
    (headers, has_host)
}

/// The positions of the two spaces that split the request line `cs[0..le]`
/// into method, URL and version.
fn request_line_spaces(cs: &Vec<char>, le: usize) -> (r: Option<(usize, usize)>)
    requires
        le <= cs@.len(),
    ensures
        match r {
            Some((i1, i2)) => i1 < i2 < le && request_line_parts(cs@.subrange(0, le as int)) == Some(
                (
                    cs@.subrange(0, i1 as int),
                    cs@.subrange(i1 + 1, i2 as int),
                    cs@.subrange(i2 + 1, le as int),
                ),
            ),
            None => request_line_parts(cs@.subrange(0, le as int)) is None,
        },
{
    let ghost line = cs@.subrange(0, le as int);
    let i1 = find_char(cs, 0, le, ' ');
    if i1 == le {
        return None;
    }
    let i2 = find_char(cs, i1 + 1, le, ' ');
    proof {
        assert(line.skip(i1 + 1) =~= cs@.subrange(i1 + 1, le as int));
    }
    if i2 == le {
        return None;
    }
    proof {
        assert(line.take(i1 as int) =~= cs@.subrange(0, i1 as int));
        assert(cs@.subrange(i1 + 1, le as int).take(i2 - i1 - 1) =~= cs@.subrange(
            i1 + 1,
            i2 as int,
        ));
        assert(cs@.subrange(i1 + 1, le as int).skip(i2 - i1 - 1 + 1) =~= cs@.subrange(
            i2 + 1,
            le as int,
        ));
    }
    Some((i1, i2))
}

/// The UTF-8 encoding of `head` followed by the body of `data`.
fn encode_request(head: &String, data: &[u8]) -> (request: Vec<u8>)
    ensures
        request@ == encode_utf8(head@) + request_body(data@),
{
    let mut request = slice_to_vec(head.as_str().as_bytes());
    let ghost encoded = request@;
    match find_header_end(data) {
        Some(p) => {
            if p < data.len() {
                let mut j = p;
                while j < data.len()
                    invariant
                        p <= j <= data@.len(),
                        request@ == encoded + data@.subrange(p as int, j as int),
                    decreases data@.len() - j,
                {
                    request.push(data[j]);
                    assert(data@.subrange(p as int, j + 1) =~= data@.subrange(p as int, j as int).push(
                        data@[j as int],
                    ));
                    j = j + 1;
                }
                assert(data@.subrange(p as int, data@.len() as int) =~= data@.skip(p as int));
            } else {
                assert(request@ =~= encoded + Seq::<u8>::empty());
            }
        },
        None => {
            assert(request@ =~= encoded + Seq::<u8>::empty());
        },
    }
    request
}

/// The forwarded head: request line with the path, optional padding line,
/// header lines, a Host header when there was none, and the empty line.
fn build_head(
    cs: &Vec<char>,
    i1: usize,
    i2: usize,
    le: usize,
    url: &ProxyUrl,
    headers: &String,
    has_host: bool,
    padding: bool,
) -> (head: String)
    requires
        i1 < i2 < le <= cs@.len(),
    ensures
        head@ == cs@.subrange(0, i1 as int) + seq![' '] + url.path@ + seq![' '] + cs@.subrange(
            i2 + 1,
            le as int,
        ) + "\r\n"@ + (if padding {
            " \r\n"@
        } else {
            Seq::empty()
        }) + headers@ + (if has_host {
            Seq::empty()
        } else {
            "Host: "@ + url.host@ + "\r\n"@
        }) + "\r\n"@,
{
    let mut head = String::new();
    push_chars(&mut head, cs, 0, i1);
    push_char(&mut head, ' ');
    head.append(url.path.as_str());
    push_char(&mut head, ' ');
    push_chars(&mut head, cs, i2 + 1, le);
    head.append("\r\n");
    if padding {
        head.append(" \r\n");
    }
    head.append(headers.as_str());
    if !has_host {
        head.append("Host: ");
        head.append(url.host.as_str());
        head.append("\r\n");
    }
    head.append("\r\n");
    assert(head@ =~= cs@.subrange(0, i1 as int) + seq![' '] + url.path@ + seq![' '] + cs@.subrange(
            i2 + 1,
            le as int,
        ) + "\r\n"@ + (if padding {
            " \r\n"@
        } else {
            Seq::empty()
        }) + headers@ + (if has_host {
            Seq::empty()
        } else {
            "Host: "@ + url.host@ + "\r\n"@
        }) + "\r\n"@);
    head
}

/// Rewrites a plain HTTP request for an absolute URL, whose text is `text`
/// and whose raw bytes are `data`, into the request sent to the origin
/// server: the head of [`rewritten_head`], UTF-8 encoded, followed by the
/// body bytes of `data`.
pub fn rewrite_http_request(text: &str, data: &[u8], settings: &Settings) -> (r: Result<
    HttpForward,
    EngineError,
>)
    ensures
        match r {
            Ok(f) => match rewritten_head(text@, *settings) {
                Ok((host, port, head)) => {
                    &&& f.host@ == host
                    &&& f.port == port
                    &&& f.target@ == host + seq![':'] + decimal(port as nat)
                    &&& f.request@ == encode_utf8(head) + request_body(data@)
                },
                Err(_) => false,
            },
            Err(e) => match rewritten_head(text@, *settings) {
                Ok(_) => false,
                Err(m) => e matches EngineError::ConnectionError(em) && em@ == m,
            },
        },
{
    let cs = str_chars(text);
    let (le, rs) = first_line_bounds(&cs);
    let (i1, i2) = match request_line_spaces(&cs, le) {
        Some(p) => p,
        None => {
            return Err(connection_error("Geçersiz HTTP isteği"));
        },
    };
    let url = match parse_proxy_url_chars(&cs, i1 + 1, i2) {
        Ok(u) => u,
        Err(e) => {
            return Err(e);
        },
    };
    let mix = settings.enable_host_mixcase;
    let dot = settings.enable_dot_after_host;
    let (headers, has_host) = rewrite_headers_of(&cs, rs, mix, dot);
    let head = build_head(&cs, i1, i2, le, &url, &headers, has_host, settings.enable_header_padding);
    assert(request_line_parts(first_line(text@)) == Some(
        (
            cs@.subrange(0, i1 as int),
            cs@.subrange(i1 + 1, i2 as int),
            cs@.subrange(i2 + 1, le as int),
        ),
    ));
    let request = encode_request(&head, data);
    let mut target = String::new();
    target.append(url.host.as_str());
    push_char(&mut target, ':');
    push_decimal(&mut target, url.port as u64);
    Ok(HttpForward { host: url.host, port: url.port, target, request })
}

/// Prepares the first data a client sent as a plain HTTP request, read as
/// text with invalid UTF-8 replaced, for forwarding.
pub fn prepare_http_request(data: &[u8], settings: &Settings) -> (r: Result<HttpForward, EngineError>)
    ensures
        match r {
            Ok(f) => match rewritten_head(utf8_lossy(data@), *settings) {
                Ok((host, port, head)) => {
                    &&& f.host@ == host
                    &&& f.port == port
                    &&& f.target@ == host + seq![':'] + decimal(port as nat)
                    &&& f.request@ == encode_utf8(head) + request_body(data@)
                },
                Err(_) => false,
            },
            Err(e) => match rewritten_head(utf8_lossy(data@), *settings) {
                Ok(_) => false,
                Err(m) => e matches EngineError::ConnectionError(em) && em@ == m,
            },
        },
{
    let text = decode_lossy(data);
    rewrite_http_request(text.as_str(), data, settings)
}

/// The first line of `t + x` is that of `t` when `t` holds a line end.
proof fn lemma_first_line_of_start(t: Seq<char>, x: Seq<char>)
    requires
        has_char(t, '\n'),
    ensures
        first_line(t + x) == first_line(t),
{
    lemma_index_of(t, '\n');
    let k = index_of(t, '\n');
    assert(k < t.len());
    lemma_index_of_unique(t + x, '\n', k);
    assert((t + x).take(k) =~= t.take(k));
}

/// Where the `CONNECT` request in the first data of a client goes, read as
/// text with invalid UTF-8 replaced. A valid UTF-8 start of the data that
/// holds the first line end settles the target, whatever bytes follow.
pub fn prepare_connect(data: &[u8]) -> (r: Result<String, EngineError>)
    ensures
        match r {
            Ok(t) => spec_connect_target(utf8_lossy(data@)) == Some(t@),
            Err(e) => spec_connect_target(utf8_lossy(data@)) is None && (e matches EngineError::ConnectionError(
                m,
            ) && m@ == "Geçersiz CONNECT"@),
        },
        forall|i: int|
            0 <= i <= data@.len() && #[trigger] vstd::utf8::valid_utf8(data@.subrange(0, i)) && has_char(
                vstd::utf8::decode_utf8(data@.subrange(0, i)),
                '\n',
            ) ==> match r {
                Ok(t) => spec_connect_target(vstd::utf8::decode_utf8(data@.subrange(0, i))) == Some(t@),
                Err(_) => spec_connect_target(vstd::utf8::decode_utf8(data@.subrange(0, i))) is None,
            },
{
    let text = decode_lossy(data);
    let r = connect_target(text.as_str());
    proof {
        assert forall|i: int|
            0 <= i <= data@.len() && #[trigger] vstd::utf8::valid_utf8(data@.subrange(0, i)) && has_char(
                vstd::utf8::decode_utf8(data@.subrange(0, i)),
                '\n',
            ) implies spec_connect_target(vstd::utf8::decode_utf8(data@.subrange(0, i))) == spec_connect_target(
            text@,
        ) by {
            lemma_first_line_of_start(
                vstd::utf8::decode_utf8(data@.subrange(0, i)),
                utf8_lossy(data@.subrange(i, data@.len() as int)),
            );
        }
    }
    r
}

// ─── Targets read back ─────────────────────────────────────────────────────

proof fn lemma_last_colon_of_target(host: Seq<char>, tail: Seq<char>)
    requires
        forall|i: int| 0 <= i < tail.len() ==> tail[i] != ':',
    ensures
        last_index_of(host + seq![':'] + tail, ':') == host.len(),
{
    let t = host + seq![':'] + tail;
    crate::text::lemma_last_index_of_unique(t, ':', host.len() as int);
}

/// The "host:port" target of a rewritten HTTP request splits back into its
/// host and port when the proxy connects to it, whatever the host holds.
pub proof fn lemma_http_target_splits_back(host: Seq<char>, port: u16)
    ensures
        spec_split_target(host + seq![':'] + decimal(port as nat)) == Ok::<(Seq<char>, u16), Seq<char>>(
            (host, port),
        ),
{
    let d = decimal(port as nat);
    let t = host + seq![':'] + d;
    crate::text::lemma_decimal_digits(port as nat);
    assert forall|i: int| 0 <= i < d.len() implies d[i] != ':' by {
        assert(crate::text::is_ascii_digit(d[i]));
    }
    lemma_last_colon_of_target(host, d);
    assert(t.skip(host.len() as int + 1) =~= d);
    assert(t.take(host.len() as int) =~= host);
    crate::text::lemma_decimal_parse_roundtrip(port as nat, 65535);
}

/// A header name `name` that matches `p` (a lower-case name ending in its
/// only ':') in any case, followed by anything: the line starts with `p` in
/// any case, and its first ':' is the name's.
proof fn lemma_first_colon_after_name(name: Seq<char>, v: Seq<char>, p: Seq<char>)
    requires
        p.len() >= 1,
        name.len() == p.len(),
        has_prefix_ignore_ascii_case(name, p),
        p[p.len() - 1] == ':',
        forall|j: int| 0 <= j < p.len() - 1 ==> p[j] != ':',
    ensures
        has_prefix_ignore_ascii_case(name + v, p),
        index_of(name + v, ':') == p.len() - 1,
        (name + v).skip(p.len() as int) == v,
{
    let line = name + v;
    let n = p.len() - 1;
    assert forall|i: int| 0 <= i < p.len() implies crate::text::ascii_lower_code(#[trigger] line[i]) == p[i] as u32 by {
        assert(line[i] == name[i]);
    }
    assert forall|j: int| 0 <= j < n implies line[j] != ':' by {
        assert(line[j] == name[j]);
        assert(crate::text::ascii_lower_code(name[j]) == p[j] as u32);
        if name[j] == ':' {
            assert((p[j] as u32) == 58);
            vstd::utf8::char_u32_cast(p[j], 58);
            vstd::utf8::char_u32_cast(':', 58);
        }
    }
    assert(line[n] == ':') by {
        assert(line[n] == name[n]);
        assert(crate::text::ascii_lower_code(name[n]) == ':' as u32);
        assert((name[n] as u32) == 58);
        vstd::utf8::char_u32_cast(name[n], 58);
        vstd::utf8::char_u32_cast(':', 58);
    }
    lemma_index_of_unique(line, ':', n);
    assert(line.skip(p.len() as int) =~= v);
}

/// A Host header line is recognised by its name in any case, and its value
/// is everything after that name's ':', trimmed, whatever ':' it holds
/// itself ("Host: h:p" forwards "h:p"): the line becomes the name ("hOsT"
/// when `mix` is set, else "Host"), ": ", that value (with its trailing dots
/// replaced by a single '.' when `dot` is set) and "\r\n".
#[verifier::rlimit(40)]
pub proof fn lemma_host_line_keeps_whole_value(name: Seq<char>, v: Seq<char>, mix: bool, dot: bool)
    requires
        name.len() == 5,
        has_prefix_ignore_ascii_case(name, "host:"@),
    ensures
        rewrite_header_line(name + v, mix, dot) == (
            (if mix { "hOsT"@ } else { "Host"@ }) + ": "@ + (if dot {
                trim_end_char(trim(v), '.') + seq!['.']
            } else {
                trim(v)
            }) + "\r\n"@,
            true,
        ),
{
    reveal_strlit("host:");
    lemma_first_colon_after_name(name, v, "host:"@);
    assert(after_first_colon(name + v, Seq::empty()) == v);
}

/// A Proxy-Connection header line, its name in any case, becomes a
/// Connection header with the same value, trimmed, whatever ':' it holds; it
/// is no Host header.
#[verifier::rlimit(40)]
pub proof fn lemma_proxy_connection_line_keeps_value(name: Seq<char>, v: Seq<char>, mix: bool, dot: bool)
    requires
        name.len() == 17,
        has_prefix_ignore_ascii_case(name, "proxy-connection:"@),
    ensures
        rewrite_header_line(name + v, mix, dot) == ("Connection: "@ + trim(v) + "\r\n"@, false),
{
    reveal_strlit("proxy-connection:");
    reveal_strlit("host:");
    let p = "proxy-connection:"@;
    assert(forall|j: int| 0 <= j < 16 ==> p[j] != ':');
    lemma_first_colon_after_name(name, v, p);
    let line = name + v;
    assert(!has_prefix_ignore_ascii_case(line, "host:"@)) by {
        assert(crate::text::ascii_lower_code(line[0]) == p[0] as u32);
    }
    assert(after_first_colon(line, "keep-alive"@) == v);
}

/// Formatting a host, a port and a path into an absolute URL and parsing it
/// gives the three back, for a non-empty host holding no ':' nor '/' and a
/// path that starts with '/'; the URL of the bare host gives port 80 and the
/// path "/".
pub proof fn lemma_proxy_url_roundtrip(host: Seq<char>, port: u16, path: Seq<char>)
    requires
        host.len() > 0,
        !has_char(host, ':'),
        !has_char(host, '/'),
        path.len() > 0,
        path[0] == '/',
    ensures
        spec_parse_proxy_url("http://"@ + host + seq![':'] + decimal(port as nat) + path) == Ok::<
            (Seq<char>, u16, Seq<char>),
            Seq<char>,
        >((host, port, path)),
        spec_parse_proxy_url("http://"@ + host) == Ok::<(Seq<char>, u16, Seq<char>), Seq<char>>(
            (host, 80, seq!['/']),
        ),
{
    reveal_strlit("http://");
    let scheme = "http://"@;
    let d = decimal(port as nat);
    crate::text::lemma_decimal_digits(port as nat);
    assert forall|i: int| 0 <= i < d.len() implies d[i] != ':' && d[i] != '/' by {
        assert(crate::text::is_ascii_digit(d[i]));
    }
    // With a port and a path.
    let hp = host + seq![':'] + d;
    let u = scheme + hp + path;
    assert(u =~= "http://"@ + host + seq![':'] + d + path);
    assert(u[0] == 'h');
    assert(u.take(scheme.len() as int) =~= scheme);
    assert(u.skip(scheme.len() as int) =~= hp + path);
    let w = hp + path;
    assert forall|j: int| 0 <= j < hp.len() implies w[j] != '/' by {
        if j < host.len() {
            assert(w[j] == host[j]);
        } else if j > host.len() {
            assert(w[j] == d[j - host.len() - 1]);
        }
    }
    lemma_index_of_unique(w, '/', hp.len() as int);
    assert(w.take(hp.len() as int) =~= hp);
    assert(w.skip(hp.len() as int) =~= path);
    lemma_last_colon_of_target(host, d);
    assert(hp.skip(host.len() as int + 1) =~= d);
    assert(hp.take(host.len() as int) =~= host);
    crate::text::lemma_decimal_parse_roundtrip(port as nat, 65535);
    assert(strip_scheme(u) == w);
    assert(split_host_port(hp) == (host, port));
    // The bare host.
    let v = scheme + host;
    assert(v[0] == 'h');
    assert(v.take(scheme.len() as int) =~= scheme);
    assert(v.skip(scheme.len() as int) =~= host);
    lemma_index_of_unique(host, '/', host.len() as int);
    assert(host.take(host.len() as int) =~= host);
    crate::text::lemma_last_index_of_unique(host, ':', -1);
}

/// A `CONNECT` target that named no port gets port 443: the proxy connects
/// to the requested host on port 443.
pub proof fn lemma_connect_target_splits_back(text: Seq<char>)
    requires
        spec_connect_target(text) is Some,
    ensures
        !has_char(nth_word(first_line(text), 1)->0, ':') ==> spec_split_target(
            spec_connect_target(text)->0,
        ) == Ok::<(Seq<char>, u16), Seq<char>>((nth_word(first_line(text), 1)->0, 443)),
{
    let w = nth_word(first_line(text), 1)->0;
    if !has_char(w, ':') {
        reveal_strlit(":443");
        assert(decimal(4) =~= seq!['4']);
        assert(decimal(44) =~= seq!['4', '4']);
        assert(decimal(443) =~= seq!['4', '4', '3']);
        assert(":443"@ =~= seq![':'] + decimal(443));
        assert(w + ":443"@ =~= w + seq![':'] + decimal(443));
        lemma_http_target_splits_back(w, 443);
    }
}

} // verus!
