//! Parsing RTSP responses (RFC 2326 section 7).
//!
//! ```text
//! RTSP/1.0 200 OK\r\n
//! CSeq: 1\r\n
//! Content-Length: 460\r\n     <- if present, exactly that many body bytes follow
//! \r\n
//! <body>
//! ```
//!
//! The empty line ends the headers, and the body is exactly Content-Length bytes
//! long: nothing is read past it, because the next message starts there.
//!
//! `ResponseReader` holds the decisions: it is fed one line at a time and says when
//! the headers have ended and how many body bytes come next. `read` runs it over the
//! bytes of a `ByteCursor`; a caller that holds a socket runs it the same way.

use vstd::prelude::*;

use crate::cursor::{ByteCursor, lemma_find_byte_from, line_end, line_text};
use crate::error::{Error, Failure, Result, protocol_error};
use crate::span::Span;
use crate::text::{
    chars_of, eq_ignore_ascii_case, parse_unsigned, split_once, starts_with, trim, trim_end_crlf,
    unsigned_digits,
};

verus! {

#[derive(Debug)]
pub struct Response {
    pub status: u16,
    pub reason: String,
    pub headers: Vec<(String, String)>,
    pub body: Vec<u8>,
}

/// The contents of a response.
pub struct ResponseView {
    pub status: u16,
    pub reason: Seq<char>,
    pub headers: Seq<(Seq<char>, Seq<char>)>,
    pub body: Seq<u8>,
}

/// The contents of a list of (name, value) headers.
pub open spec fn pairs_view(v: Seq<(String, String)>) -> Seq<(Seq<char>, Seq<char>)> {
    v.map_values(|p: (String, String)| (p.0@, p.1@))
}

impl View for Response {
    type V = ResponseView;

    open spec fn view(&self) -> ResponseView {
        ResponseView {
            status: self.status,
            reason: self.reason@,
            headers: pairs_view(self.headers@),
            body: self.body@,
        }
    }
}

/// The value of the first header from index `i` on whose name equals `name`, ignoring
/// ASCII case.
pub open spec fn header_from(hs: Seq<(Seq<char>, Seq<char>)>, name: Seq<char>, i: int) -> Option<
    Seq<char>,
>
    decreases hs.len() - i,
{
    if 0 <= i < hs.len() {
        if eq_ignore_ascii_case(hs[i].0, name) {
            Some(hs[i].1)
        } else {
            header_from(hs, name, i + 1)
        }
    } else {
        None
    }
}

/// The value of the first header named `name`, ignoring ASCII case.
pub open spec fn header_value(hs: Seq<(Seq<char>, Seq<char>)>, name: Seq<char>) -> Option<Seq<char>> {
    header_from(hs, name, 0)
}

/// The body length that the headers announce: the first Content-Length header, when
/// its value is a number that fits in a usize; 0 otherwise.
pub open spec fn content_length(hs: Seq<(Seq<char>, Seq<char>)>) -> usize {
    match header_value(hs, "Content-Length"@) {
        Some(v) => match parse_unsigned(v, usize::MAX as nat) {
            Some(n) => n as usize,
            None => 0,
        },
        None => 0,
    }
}

/// The status code and reason of a status line such as "RTSP/1.0 200 OK\r\n": the line
/// breaks at its end are dropped, the first space ends the version, which has to start
/// with "RTSP/", the next space ends the code, and the rest is the reason.
pub open spec fn status_line(line: Seq<char>) -> Option<(u16, Seq<char>)> {
    let t = trim_end_crlf(line);
    let (version, after) = match split_once(t, ' ') {
        Some((v, a)) => (v, Some(a)),
        None => (t, None),
    };
    if !starts_with(version, "RTSP/"@) {
        None
    } else {
        match after {
            None => None,
            Some(a) => {
                let (code, reason) = match split_once(a, ' ') {
                    Some((c, r)) => (c, r),
                    None => (a, Seq::empty()),
                };
                match parse_unsigned(code, 65535) {
                    Some(v) => Some((v as u16, reason)),
                    None => None,
                }
            },
        }
    }
}

/// Why `status_line` refuses `line`: the version does not start with "RTSP/", or no
/// status code follows it. The line is quoted as `{:?}` writes it.
pub open spec fn status_line_error(line: Seq<char>) -> Seq<char> {
    let t = trim_end_crlf(line);
    let version = match split_once(t, ' ') {
        Some((v, a)) => v,
        None => t,
    };
    if !starts_with(version, "RTSP/"@) {
        "expected an RTSP status line, got "@ + debug_text(t)
    } else {
        "no status code in "@ + debug_text(t)
    }
}

/// Where a response reader is: before the status line, inside the headers, or after
/// the empty line, with the number of body bytes that follow.
#[derive(Debug, Clone, Copy, PartialEq, Eq, Structural)]
pub enum Phase {
    StatusLine,
    Headers,
    Body(usize),
}

/// What a response reader has gathered.
pub struct ReaderView {
    pub phase: Phase,
    pub status: u16,
    pub reason: Seq<char>,
    pub headers: Seq<(Seq<char>, Seq<char>)>,
}

pub open spec fn initial_reader() -> ReaderView {
    ReaderView { phase: Phase::StatusLine, status: 0, reason: Seq::empty(), headers: Seq::empty() }
}

/// The reader after one more line (`None`: the connection closed), or `None` when the
/// line breaks the protocol.
pub open spec fn feed(st: ReaderView, line: Option<Seq<char>>) -> Option<ReaderView> {
    match st.phase {
        Phase::StatusLine => match line {
            None => None,
            Some(l) => match status_line(l) {
                Some((code, reason)) => Some(
                    ReaderView { phase: Phase::Headers, status: code, reason, ..st },
                ),
                None => None,
            },
        },
        Phase::Headers => match line {
            None => None,
            Some(l) => {
                let t = trim_end_crlf(l);
                if t.len() == 0 {
                    Some(ReaderView { phase: Phase::Body(content_length(st.headers)), ..st })
                } else {
                    match split_once(t, ':') {
                        Some((n, v)) => Some(
                            ReaderView { headers: st.headers.push((trim(n), trim(v))), ..st },
                        ),
                        None => None,
                    }
                }
            },
        },
        Phase::Body(_) => None,
    }
}

/// The message of the Protocol error with which `feed` refuses a line (`None`: the
/// connection closed).
pub open spec fn feed_error(st: ReaderView, line: Option<Seq<char>>) -> Seq<char> {
    match st.phase {
        Phase::StatusLine => match line {
            None => "connection closed before a status line arrived"@,
            Some(l) => status_line_error(l),
        },
        Phase::Headers => match line {
            None => "connection closed inside the headers"@,
            Some(l) => "header line has no colon: "@ + debug_text(trim_end_crlf(l)),
        },
        Phase::Body(_) => "the headers have already ended"@,
    }
}

/// Reading a response from `data` at `pos` with the reader in state `st`: the response
/// or the failure, and where the reading stopped. Lines end just after their '\n' and
/// must be UTF-8; the body is exactly the announced number of bytes.
pub open spec fn read_from(data: Seq<u8>, pos: int, st: ReaderView) -> (
    std::result::Result<ResponseView, Failure>,
    int,
)
    decreases data.len() - pos,
{
    match st.phase {
        Phase::Body(n) => if pos + n <= data.len() {
            (
                Ok(
                    ResponseView {
                        status: st.status,
                        reason: st.reason,
                        headers: st.headers,
                        body: data.subrange(pos, pos + n),
                    },
                ),
                pos + n,
            )
        } else {
            (Err(Failure::Io), data.len() as int)
        },
        _ => if pos < 0 || pos >= data.len() {
            (Err(Failure::Protocol(feed_error(st, None))), pos)
        } else {
            let end = line_end(data, pos);
            proof {
                lemma_find_byte_from(data, 10, pos);
            }
            match line_text(data.subrange(pos, end)) {
                None => (Err(Failure::Io), end),
                Some(t) => match feed(st, Some(t)) {
                    None => (Err(Failure::Protocol(feed_error(st, Some(t)))), end),
                    Some(next) => read_from(data, end, next),
                },
            }
        },
    }
}

/// The position of the first header named `name`, ignoring ASCII case.
fn find_header(headers: &Vec<(String, String)>, name: &str) -> (r: Option<usize>)
    ensures
        match r {
            Some(k) => k < headers@.len() && header_value(pairs_view(headers@), name@) == Some(
                headers@[k as int].1@,
            ),
            None => header_value(pairs_view(headers@), name@) is None,
        },
{
    let nc = chars_of(name);
    let ns = Span::new(name, nc.as_slice());
    let ghost hs = pairs_view(headers@);
    let mut i: usize = 0;
    while i < headers.len()
        invariant
            i <= headers@.len(),
            hs == pairs_view(headers@),
            ns@ == name@,
            header_value(hs, name@) == header_from(hs, name@, i as int),
        decreases headers@.len() - i,
    {
        let key: &str = headers[i].0.as_str();
        let kc = chars_of(key);
        let ks = Span::new(key, kc.as_slice());
        if ks.eq_ignore_ascii_case(&ns) {
            return Some(i);
        }
        i += 1;
    }
    None
}

/// The text of a body, with every sequence that is not UTF-8 replaced by U+FFFD.
pub uninterp spec fn utf8_lossy(bytes: Seq<u8>) -> Seq<char>;

/// `String::from_utf8_lossy`: its result, named, and equal to the decoded text when the
/// bytes are valid UTF-8 (the documentation says it then borrows them unchanged).
#[verifier::external_body]
fn lossy_text(bytes: &[u8]) -> (s: String)
    ensures
        s@ == utf8_lossy(bytes@),
        vstd::utf8::valid_utf8(bytes@) ==> s@ == vstd::utf8::decode_utf8(bytes@),
{
    String::from_utf8_lossy(bytes).into_owned()
}

/// A text as `{:?}` writes it: in double quotes, with std's escapes.
pub uninterp spec fn debug_text(s: Seq<char>) -> Seq<char>;

/// `<str as Debug>::fmt`, through `format!("{:?}", ..)`: the quoted and escaped text,
/// named. Which characters std escapes, and how, is left to the name.
#[verifier::external_body]
fn debug_quoted(s: &str) -> (r: String)
    ensures
        r@ == debug_text(s@),
{
    format!("{:?}", s)
}

impl Response {
    /// Looks up one header. Header names are case insensitive in RTSP, so the
    /// comparison ignores ASCII case.
    pub fn header(&self, name: &str) -> (r: Option<&str>)
        ensures
            match header_value(self@.headers, name@) {
                Some(v) => (r matches Some(s) && s@ == v),
                None => r is None,
            },
    {
        match find_header(&self.headers, name) {
            Some(k) => Some(self.headers[k].1.as_str()),
            None => None,
        }
    }

    /// The body as text.
    pub fn body_text(&self) -> (s: String)
        ensures
            s@ == utf8_lossy(self@.body),
            vstd::utf8::valid_utf8(self@.body) ==> s@ == vstd::utf8::decode_utf8(self@.body),
    {
        lossy_text(self.body.as_slice())
    }

    /// Turns a refusal (a status outside 200..300) into a `Status` error.
    pub fn ok(self) -> (r: Result<Self>)
        ensures
            200 <= self.status < 300 ==> (r matches Ok(x) && x == self),
            !(200 <= self.status < 300) ==> (r matches Err(Error::Status { code, reason }) && code
                == self.status && reason == self.reason),
    {
        if 200 <= self.status && self.status < 300 {
            Ok(self)
        } else {
            Err(Error::Status { code: self.status, reason: self.reason })
        }
    }
}

/// Reads a status line such as "RTSP/1.0 200 OK\r\n": the status code and the reason.
pub fn parse_status_line(line: &str) -> (r: Result<(u16, String)>)
    ensures
        match status_line(line@) {
            Some((code, reason)) => (r matches Ok((c, s)) && c == code && s@ == reason),
            None => (r matches Err(Error::Protocol(m)) && m@ == status_line_error(line@)),
        },
{
    let lc = chars_of(line);
    let t = Span::new(line, lc.as_slice()).trim_end_crlf();
    let (version, after) = match t.split_once(' ') {
        Some((v, a)) => (v, Some(a)),
        None => (t, None),
    };
    if !version.starts_with("RTSP/") {
        let mut msg = "expected an RTSP status line, got ".to_owned();
        msg.append(debug_quoted(t.text).as_str());
        return Err(protocol_error(msg));
    }
    let code_reason = match after {
        Some(a) => {
            let (code, reason) = match a.split_once(' ') {
                Some((c, r)) => (c, r),
                None => (a, a.sub(a.len(), a.len())),
            };
            assert(reason@ == match split_once(a@, ' ') {
                Some((c, r)) => r,
                None => Seq::<char>::empty(),
            });
            match code.parse_unsigned(65535) {
                Some(v) => Some((v as u16, reason.to_string())),
                None => None,
            }
        },
        None => None,
    };
    match code_reason {
        Some(cr) => Ok(cr),
        None => {
            let mut msg = "no status code in ".to_owned();
            msg.append(debug_quoted(t.text).as_str());
            Err(protocol_error(msg))
        },
    }
}

/// The body length that `headers` announce.
pub fn body_length(headers: &Vec<(String, String)>) -> (n: usize)
    ensures
        n == content_length(pairs_view(headers@)),
{
    match find_header(headers, "Content-Length") {
        Some(k) => {
            let v: &str = headers[k].1.as_str();
            let vc = chars_of(v);
            match Span::new(v, vc.as_slice()).parse_unsigned(usize::MAX as u64) {
                Some(n) => n as usize,
                None => 0,
            }
        },
        None => 0,
    }
}

/// Gathers a response line by line.
pub struct ResponseReader {
    phase: Phase,
    status: u16,
    reason: String,
    headers: Vec<(String, String)>,
}

impl View for ResponseReader {
    type V = ReaderView;

    closed spec fn view(&self) -> ReaderView {
        ReaderView {
            phase: self.phase,
            status: self.status,
            reason: self.reason@,
            headers: pairs_view(self.headers@),
        }
    }
}

pub open spec fn opt_line(line: Option<&str>) -> Option<Seq<char>> {
    match line {
        Some(s) => Some(s@),
        None => None,
    }
}

impl ResponseReader {
    pub fn new() -> (r: Self)
        ensures
            r@ == initial_reader(),
    {
        let r = ResponseReader {
            phase: Phase::StatusLine,
            status: 0,
            reason: String::new(),
            headers: Vec::new(),
        };
        assert(pairs_view(r.headers@) =~= Seq::<(Seq<char>, Seq<char>)>::empty());
        r
    }

    /// What the reader needs next: a line, or (after the empty line) the body bytes.
    pub fn phase(&self) -> (p: Phase)
        ensures
            p == self@.phase,
    {
        self.phase
    }

    /// Takes the next line read from the connection (`None` when the connection closed
    /// first). A line that breaks the protocol is a `Protocol` error and changes nothing.
    pub fn feed_line(&mut self, line: Option<&str>) -> (r: Result<()>)
        ensures
            match feed(old(self)@, opt_line(line)) {
                Some(st) => r is Ok && final(self)@ == st,
                None => (r matches Err(Error::Protocol(m)) && m@ == feed_error(
                    old(self)@,
                    opt_line(line),
                )) && final(self)@ == old(self)@,
            },
    {
        match self.phase {
            Phase::StatusLine => match line {
                None => Err(
                    protocol_error("connection closed before a status line arrived".to_owned()),
                ),
                Some(l) => match parse_status_line(l) {
                    Ok((code, reason)) => {
                        self.status = code;
                        self.reason = reason;
                        self.phase = Phase::Headers;
                        Ok(())
                    },
                    Err(e) => Err(e),
                },
            },
            Phase::Headers => match line {
                None => Err(protocol_error("connection closed inside the headers".to_owned())),
                Some(l) => {
                    let lc = chars_of(l);
                    let t = Span::new(l, lc.as_slice()).trim_end_crlf();
                    if t.len() == 0 {
                        let n = body_length(&self.headers);
                        self.phase = Phase::Body(n);
                        Ok(())
                    } else {
                        match t.split_once(':') {
                            Some((name, value)) => {
                                let ghost before = pairs_view(self.headers@);
                                let pair = (name.trim().to_string(), value.trim().to_string());
                                self.headers.push(pair);
                                assert(pairs_view(self.headers@) =~= before.push(
                                    (pair.0@, pair.1@),
                                ));
                                Ok(())
                            },
                            None => {
                                let mut msg = "header line has no colon: ".to_owned();
                                msg.append(debug_quoted(t.text).as_str());
                                Err(protocol_error(msg))
                            },
                        }
                    }
                },
            },
            Phase::Body(_) => Err(protocol_error("the headers have already ended".to_owned())),
        }
    }

    /// The response, with `body` as its body.
    pub fn finish(self, body: Vec<u8>) -> (r: Response)
        ensures
            r@ == (ResponseView {
                status: self@.status,
                reason: self@.reason,
                headers: self@.headers,
                body: body@,
            }),
    {
        Response { status: self.status, reason: self.reason, headers: self.headers, body }
    }
}

/// Reads one response: the status line, the headers up to the empty line, and exactly
/// Content-Length body bytes (none without the header). What follows stays unread.
pub fn read(reader: &mut ByteCursor) -> (r: Result<Response>)
    ensures
        final(reader)@.data == old(reader)@.data,
        final(reader)@.pos == read_from(old(reader)@.data, old(reader)@.pos as int, initial_reader()).1,
        match read_from(old(reader)@.data, old(reader)@.pos as int, initial_reader()).0 {
            Ok(v) => (r matches Ok(resp) && resp@ == v),
            Err(Failure::Io) => r matches Err(Error::Io(_)),
            Err(Failure::Protocol(m)) => (r matches Err(Error::Protocol(s)) && s@ == m),
        },
{
    let ghost data = reader@.data;
    let ghost goal = read_from(data, reader@.pos as int, initial_reader());
    let _ = reader.position();
    let mut rr = ResponseReader::new();
    loop
        invariant
            reader@.data == data,
            data == old(reader)@.data,
            goal == read_from(old(reader)@.data, old(reader)@.pos as int, initial_reader()),
            reader@.pos <= data.len(),
            goal == read_from(data, reader@.pos as int, rr@),
        decreases data.len() - reader@.pos,
    {
        match rr.phase() {
            Phase::Body(n) => {
                let body = match reader.read_exact(n) {
                    Ok(b) => b,
                    Err(e) => return Err(e),
                };
                return Ok(rr.finish(body));
            },
            _ => {},
        }
        let ghost pos = reader@.pos as int;
        proof {
            lemma_find_byte_from(data, 10, pos);
        }
        let line = match reader.read_line() {
            Ok(l) => l,
            Err(e) => return Err(e),
        };
        match line {
            None => {
                match rr.feed_line(None) {
                    Err(e) => return Err(e),
                    Ok(()) => {
                        assert(false);
                        return Err(protocol_error("connection closed".to_owned()));
                    },
                }
            },
            Some(s) => {
                match rr.feed_line(Some(s.as_str())) {
                    Ok(()) => {},
                    Err(e) => return Err(e),
                }
            },
        }
    }
}

proof fn lemma_header_from_extended(
    hs: Seq<(Seq<char>, Seq<char>)>,
    more: Seq<(Seq<char>, Seq<char>)>,
    name: Seq<char>,
    i: int,
)
    requires
        0 <= i,
        header_from(hs, name, i) is Some,
    ensures
        header_from(hs + more, name, i) == header_from(hs, name, i),
    decreases hs.len() - i,
{
    assert((hs + more)[i] == hs[i]);
    if !eq_ignore_ascii_case(hs[i].0, name) {
        lemma_header_from_extended(hs, more, name, i + 1);
    }
}

/// Header lookup takes the first header of that name, ignoring ASCII case, wherever it
/// stands: headers that follow it change nothing. So the body length is that of the
/// first Content-Length header, whatever headers come after it, and a Content-Length
/// header written with the decimal digits of `n` announces `n` bytes, in whatever case
/// its name is written.
pub proof fn lemma_first_header_counts(
    hs: Seq<(Seq<char>, Seq<char>)>,
    more: Seq<(Seq<char>, Seq<char>)>,
    name: Seq<char>,
    key: Seq<char>,
    n: usize,
)
    ensures
        header_value(hs, name) is Some ==> header_value(hs + more, name) == header_value(hs, name),
        header_value(hs, "Content-Length"@) is Some ==> content_length(hs + more) == content_length(
            hs,
        ),
        eq_ignore_ascii_case(key, "Content-Length"@) ==> content_length(
            seq![(key, crate::text::decimal(n as nat))] + more,
        ) == n,
{
    if header_value(hs, name) is Some {
        lemma_header_from_extended(hs, more, name, 0);
    }
    if header_value(hs, "Content-Length"@) is Some {
        lemma_header_from_extended(hs, more, "Content-Length"@, 0);
    }
    if eq_ignore_ascii_case(key, "Content-Length"@) {
        let d = crate::text::decimal(n as nat);
        let all = seq![(key, d)] + more;
        assert(all[0] == (key, d));
        assert(header_value(all, "Content-Length"@) == Some(d));
        crate::text::lemma_decimal_digits(n as nat);
        assert(crate::text::is_digit(d[0]));
        assert(unsigned_digits(d) == d);
        assert(parse_unsigned(d, usize::MAX as nat) == Some(n as nat));
    }
}

/// The body is read by length and nothing more: once the empty line is behind, a
/// response takes exactly the `n` announced bytes as its body and reading stops right
/// after them, where the next message starts; when fewer bytes are left, it is an `Io`
/// failure.
pub proof fn lemma_body_is_exactly_announced(data: Seq<u8>, pos: int, st: ReaderView, n: usize)
    requires
        st.phase == Phase::Body(n),
        0 <= pos,
    ensures
        pos + n <= data.len() ==> read_from(data, pos, st) == (
            Ok::<ResponseView, Failure>(
                ResponseView {
                    status: st.status,
                    reason: st.reason,
                    headers: st.headers,
                    body: data.subrange(pos, pos + n),
                },
            ),
            pos + n,
        ),
        pos + n > data.len() ==> read_from(data, pos, st) == (
            Err::<ResponseView, Failure>(Failure::Io),
            data.len() as int,
        ),
{
}

} // verus!
