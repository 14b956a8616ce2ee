//! RTSP session state (RFC 2326).
//!
//! A session owns what belongs to a connection rather than to one request: the CSeq
//! counter (per connection, RFC 2326 section 12.17), the Session id issued by the
//! server in the SETUP response, and where the session is in its lifecycle. Callers
//! never build a request string or manage CSeq; they ask for the request of a method,
//! send it, and hand the response back.
//!
//! `Session` holds the decisions; a caller that owns the socket writes the requests
//! it prepares and feeds it the responses.

pub mod request;
pub mod response;

use vstd::prelude::*;

use crate::error::{Error, Result, protocol_error};
use crate::rtsp::request::{build, headers_view, request_text};
use crate::rtsp::response::{Response, header_value, utf8_lossy};
use crate::sdp::{Sdp, parse as parse_sdp, sdp_of};
use crate::span::Span;
use crate::text::{chars_of, decimal, parse_unsigned, split, strip_prefix, trim, trim_end_char};

verus! {

/// Where the session is in its lifecycle. Which methods are valid depends on it
/// (RFC 2326 Appendix A).
#[derive(Debug, PartialEq, Eq, Clone, Copy, Structural)]
pub enum State {
    Init,
    Ready,
    Playing,
}

/// The host and port of an rtsp:// URL, with the default port 554 when the URL names
/// none; `None` for another scheme or an empty host.
pub open spec fn authority(url: Seq<char>) -> Option<Seq<char>> {
    match strip_prefix(url, "rtsp://"@) {
        None => None,
        Some(rest) => {
            let a = split(rest, '/')[0];
            if a.len() == 0 {
                None
            } else if exists|i: int| 0 <= i < a.len() && a[i] == ':' {
                Some(a)
            } else {
                Some(a + ":554"@)
            }
        },
    }
}

/// Why `authority` refuses `url`: another scheme, or an empty host.
pub open spec fn authority_error(url: Seq<char>) -> Seq<char> {
    match strip_prefix(url, "rtsp://"@) {
        None => "url must start with rtsp:// : "@ + url,
        Some(_) => "url has no host: "@ + url,
    }
}

/// "rtsp://127.0.0.1:8554/test" -> "127.0.0.1:8554". Port 554 is the RTSP default.
pub fn authority_of(url: &str) -> (r: Result<String>)
    ensures
        match authority(url@) {
            Some(a) => (r matches Ok(s) && s@ == a),
            None => (r matches Err(Error::Protocol(m)) && m@ == authority_error(url@)),
        },
{
    let uc = chars_of(url);
    let u = Span::new(url, uc.as_slice());
    let rest = match u.strip_prefix("rtsp://") {
        Some(r) => r,
        None => {
            let mut msg = "url must start with rtsp:// : ".to_owned();
            msg.append(url);
            return Err(protocol_error(msg));
        },
    };
    let parts = rest.split('/');
    proof {
        crate::text::lemma_split_nonempty(rest@, '/');
    }
    let a = parts[0];
    assert(a@ == split(rest@, '/')[0]);
    assert(parts@[0].wf());
    if a.len() == 0 {
        let mut msg = "url has no host: ".to_owned();
        msg.append(url);
        return Err(protocol_error(msg));
    }
    let k = a.find(':');
    proof {
        crate::text::lemma_find_from(a@, ':', 0);
    }
    let mut out = a.to_string();
    if k == a.len() {
        out.append(":554");
    }
    Ok(out)
}

/// What a session remembers.
pub struct SessionView {
    pub base_url: Seq<char>,
    pub cseq: u32,
    pub session_id: Option<Seq<char>>,
    pub state: State,
    pub trace: bool,
}

pub struct Session {
    /// The presentation (aggregate) URL. PLAY, PAUSE and TEARDOWN go here.
    base_url: String,
    cseq: u32,
    session_id: Option<String>,
    state: State,
    /// Print every request and response to stderr.
    pub trace: bool,
}

impl View for Session {
    type V = SessionView;

    closed spec fn view(&self) -> SessionView {
        SessionView {
            base_url: self.base_url@,
            cseq: self.cseq,
            session_id: match self.session_id {
                Some(s) => Some(s@),
                None => None,
            },
            state: self.state,
            trace: self.trace,
        }
    }
}

/// The headers that every request carries after its own: Session, once the server has
/// issued an id, and User-Agent.
pub open spec fn session_headers(id: Option<Seq<char>>) -> Seq<(Seq<char>, Seq<char>)> {
    match id {
        Some(i) => seq![("Session"@, i), ("User-Agent"@, "rustsp"@)],
        None => seq![("User-Agent"@, "rustsp"@)],
    }
}

/// A response carries back the CSeq of its request: true when it has no CSeq header,
/// or when that header's value, trimmed, is the number `cseq`.
pub open spec fn cseq_echoed(headers: Seq<(Seq<char>, Seq<char>)>, cseq: u32) -> bool {
    match header_value(headers, "CSeq"@) {
        None => true,
        Some(v) => parse_unsigned(trim(v), 4294967295) == Some(cseq as nat),
    }
}

/// The message with which a response is refused whose CSeq header holds `echo`
/// where `sent` was sent.
pub open spec fn cseq_mismatch(sent: u32, echo: Seq<char>) -> Seq<char> {
    "CSeq mismatch: sent "@ + decimal(sent as nat) + ", got "@ + echo
}

/// The name of a state, as `{:?}` writes it.
pub open spec fn state_name(s: State) -> Seq<char> {
    match s {
        State::Init => "Init"@,
        State::Ready => "Ready"@,
        State::Playing => "Playing"@,
    }
}

/// The Session id in the value of a Session header: "12345678;timeout=60" -> "12345678".
pub open spec fn session_id_in(value: Seq<char>) -> Seq<char> {
    trim(split(value, ';')[0])
}

/// A session for the presentation URL `url`, before any request.
pub open spec fn initial_session(url: Seq<char>) -> SessionView {
    SessionView {
        base_url: trim_end_char(url, '/'),
        cseq: 0,
        session_id: None,
        state: State::Init,
        trace: false,
    }
}

/// The session after one more request: only the CSeq counter moves, by one.
pub open spec fn requested(v: SessionView) -> SessionView {
    SessionView { cseq: (v.cseq + 1) as u32, ..v }
}

/// The session after `k` requests.
pub open spec fn after_requests(v: SessionView, k: nat) -> SessionView
    decreases k,
{
    if k == 0 {
        v
    } else {
        requested(after_requests(v, (k - 1) as nat))
    }
}

impl Session {
    /// A session for the presentation URL `url` (its trailing '/' dropped), before any
    /// request.
    pub fn new(url: &str) -> (s: Self)
        ensures
            s@ == initial_session(url@),
    {
        let uc = chars_of(url);
        let base = Span::new(url, uc.as_slice()).trim_end_char('/');
        Session {
            base_url: base.to_string(),
            cseq: 0,
            session_id: None,
            state: State::Init,
            trace: false,
        }
    }

    pub fn state(&self) -> (s: State)
        ensures
            s == self@.state,
    {
        self.state
    }

    pub fn base_url(&self) -> (u: &str)
        ensures
            u@ == self@.base_url,
    {
        self.base_url.as_str()
    }

    pub fn session_id(&self) -> (r: Option<&str>)
        ensures
            match self@.session_id {
                Some(i) => (r matches Some(s) && s@ == i),
                None => r is None,
            },
    {
        match &self.session_id {
            Some(s) => Some(s.as_str()),
            None => None,
        }
    }

    /// The CSeq of the last request.
    pub fn cseq(&self) -> (c: u32)
        ensures
            c == self@.cseq,
    {
        self.cseq
    }

    /// The next request: CSeq is the previous one plus one, and the Session and
    /// User-Agent headers follow the headers in `extra`.
    pub fn request(&mut self, method: &str, url: &str, extra: &[(&str, &str)]) -> (r: String)
        requires
            old(self)@.cseq < u32::MAX,
        ensures
            final(self)@ == requested(old(self)@),
            r@ == request_text(
                method@,
                url@,
                final(self)@.cseq,
                headers_view(extra@) + session_headers(old(self)@.session_id),
            ),
    {
        self.cseq = self.cseq + 1;
        let mut headers: Vec<(&str, &str)> = Vec::new();
        let mut i: usize = 0;
        while i < extra.len()
            invariant
                i <= extra@.len(),
                headers@ == extra@.take(i as int),
            decreases extra@.len() - i,
        {
            headers.push(extra[i]);
            assert(headers@ =~= extra@.take(i + 1));
            i += 1;
        }
        assert(extra@.take(i as int) =~= extra@);
        let ghost before = headers@;
        match &self.session_id {
            Some(id) => headers.push(("Session", id.as_str())),
            None => {},
        }
        headers.push(("User-Agent", "rustsp"));
        assert(headers_view(headers@) =~= headers_view(extra@) + session_headers(
            old(self)@.session_id,
        ));
        build(method, url, self.cseq, headers.as_slice())
    }

    /// Checks that a response carries back the CSeq of the last request, which is how
    /// a reply is matched to its request.
    pub fn check_response(&self, resp: Response) -> (r: Result<Response>)
        ensures
            cseq_echoed(resp@.headers, self@.cseq) ==> (r matches Ok(x) && x == resp),
            !cseq_echoed(resp@.headers, self@.cseq) ==> (r matches Err(Error::Protocol(m)) && m@
                == cseq_mismatch(self@.cseq, header_value(resp@.headers, "CSeq"@)->0)),
    {
        let echo = match resp.header("CSeq") {
            Some(e) => e,
            None => return Ok(resp),
        };
        let ec = chars_of(echo);
        let value = Span::new(echo, ec.as_slice()).trim();
        match value.parse_unsigned(4294967295) {
            Some(n) => {
                if n == self.cseq as u64 {
                    return Ok(resp);
                }
            },
            None => {},
        }
        let mut msg = "CSeq mismatch: sent ".to_owned();
        crate::text::push_decimal(&mut msg, self.cseq as u64);
        msg.append(", got ");
        msg.append(echo);
        Err(protocol_error(msg))
    }

    /// The OPTIONS request, to the presentation URL.
    pub fn options_request(&mut self) -> (r: String)
        requires
            old(self)@.cseq < u32::MAX,
        ensures
            final(self)@ == requested(old(self)@),
            r@ == request_text(
                "OPTIONS"@,
                old(self)@.base_url,
                final(self)@.cseq,
                session_headers(old(self)@.session_id),
            ),
    {
        let url = self.base_url.clone();
        let r = self.request("OPTIONS", url.as_str(), &[]);
        assert(headers_view(Seq::<(&str, &str)>::empty()) + session_headers(old(self)@.session_id)
            =~= session_headers(old(self)@.session_id));
        r
    }

    /// The keepalive request: OPTIONS, the conventional way to keep a session from
    /// expiring. Only safe while no interleaved data is in flight.
    pub fn keepalive_request(&mut self) -> (r: String)
        requires
            old(self)@.cseq < u32::MAX,
        ensures
            final(self)@ == requested(old(self)@),
            r@ == request_text(
                "OPTIONS"@,
                old(self)@.base_url,
                final(self)@.cseq,
                session_headers(old(self)@.session_id),
            ),
    {
        self.options_request()
    }

    /// The DESCRIBE request, to the presentation URL, asking for SDP.
    pub fn describe_request(&mut self) -> (r: String)
        requires
            old(self)@.cseq < u32::MAX,
        ensures
            final(self)@ == requested(old(self)@),
            r@ == request_text(
                "DESCRIBE"@,
                old(self)@.base_url,
                final(self)@.cseq,
                seq![("Accept"@, "application/sdp"@)] + session_headers(old(self)@.session_id),
            ),
    {
        let url = self.base_url.clone();
        let extra: [(&str, &str); 1] = [("Accept", "application/sdp")];
        let r = self.request("DESCRIBE", url.as_str(), extra.as_slice());
        assert(headers_view(extra@) =~= seq![("Accept"@, "application/sdp"@)]);
        r
    }

    /// The SETUP request. It goes to the track URL (from a=control), never to the
    /// presentation URL, and asks for TCP interleaving: RTP on channel 0, RTCP on 1.
    pub fn setup_request(&mut self, track_url: &str) -> (r: String)
        requires
            old(self)@.cseq < u32::MAX,
        ensures
            final(self)@ == requested(old(self)@),
            r@ == request_text(
                "SETUP"@,
                track_url@,
                final(self)@.cseq,
                seq![("Transport"@, "RTP/AVP/TCP;unicast;interleaved=0-1"@)] + session_headers(
                    old(self)@.session_id,
                ),
            ),
    {
        let extra: [(&str, &str); 1] = [("Transport", "RTP/AVP/TCP;unicast;interleaved=0-1")];
        let r = self.request("SETUP", track_url, extra.as_slice());
        assert(headers_view(extra@) =~= seq![("Transport"@, "RTP/AVP/TCP;unicast;interleaved=0-1"@)]);
        r
    }

    /// The PLAY request, to the presentation URL. It is refused here, before anything
    /// is sent, unless SETUP has succeeded (state Ready).
    pub fn play_request(&mut self) -> (r: Result<String>)
        requires
            old(self)@.state == State::Ready ==> old(self)@.cseq < u32::MAX,
        ensures
            old(self)@.state != State::Ready ==> (r matches Err(Error::Protocol(m)) && m@
                == "PLAY requires state Ready, was "@ + state_name(old(self)@.state) && final(self)@
                == old(self)@),
            old(self)@.state == State::Ready ==> (r matches Ok(t) && final(self)@ == requested(
                old(self)@,
            ) && t@ == request_text(
                "PLAY"@,
                old(self)@.base_url,
                final(self)@.cseq,
                seq![("Range"@, "npt=0.000-"@)] + session_headers(old(self)@.session_id),
            )),
    {
        if self.state != State::Ready {
            let mut msg = "PLAY requires state Ready, was ".to_owned();
            match self.state {
                State::Init => msg.append("Init"),
                State::Ready => msg.append("Ready"),
                State::Playing => msg.append("Playing"),
            }
            return Err(protocol_error(msg));
        }
        let url = self.base_url.clone();
        let extra: [(&str, &str); 1] = [("Range", "npt=0.000-")];
        let r = self.request("PLAY", url.as_str(), extra.as_slice());
        assert(headers_view(extra@) =~= seq![("Range"@, "npt=0.000-"@)]);
        Ok(r)
    }

    /// The TEARDOWN request, to the presentation URL.
    pub fn teardown_request(&mut self) -> (r: String)
        requires
            old(self)@.cseq < u32::MAX,
        ensures
            final(self)@ == requested(old(self)@),
            r@ == request_text(
                "TEARDOWN"@,
                old(self)@.base_url,
                final(self)@.cseq,
                session_headers(old(self)@.session_id),
            ),
    {
        let url = self.base_url.clone();
        let r = self.request("TEARDOWN", url.as_str(), &[]);
        assert(headers_view(Seq::<(&str, &str)>::empty()) + session_headers(old(self)@.session_id)
            =~= session_headers(old(self)@.session_id));
        r
    }

    /// The answer to DESCRIBE: the SDP document in its body, once the server accepted.
    pub fn describe_done(&self, resp: Response) -> (r: Result<Sdp>)
        ensures
            !(200 <= resp.status < 300) ==> (r matches Err(Error::Status { code, reason })
                && code == resp.status && reason == resp.reason),
            200 <= resp.status < 300 ==> {
                let doc = sdp_of(utf8_lossy(resp@.body));
                &&& r is Ok <==> doc.media.len() > 0
                &&& r matches Ok(s) ==> s@ == doc
                &&& r matches Err(e) ==> (e matches Error::Protocol(m) && m@
                    == "SDP contained no m= line"@)
            },
    {
        let resp = match resp.ok() {
            Ok(x) => x,
            Err(e) => return Err(e),
        };
        let text = resp.body_text();
        parse_sdp(text.as_str())
    }

    /// The answer to SETUP: the Session id from its Session header (parameters such as
    /// ";timeout=60" dropped) is kept, and the session becomes Ready. A refusal is a
    /// Status error and a missing Session header a Protocol error; neither changes the
    /// session.
    pub fn setup_done(&mut self, resp: Response) -> (r: Result<Response>)
        ensures
            !(200 <= resp.status < 300) ==> (r matches Err(Error::Status { code, reason })
                && code == resp.status && reason == resp.reason && final(self)@ == old(self)@),
            200 <= resp.status < 300 ==> match header_value(resp@.headers, "Session"@) {
                Some(v) => (r matches Ok(x) && x == resp && final(self)@ == (SessionView {
                    session_id: Some(session_id_in(v)),
                    state: State::Ready,
                    ..old(self)@
                })),
                None => (r matches Err(Error::Protocol(m)) && m@
                    == "SETUP response had no Session header"@) && final(self)@ == old(self)@,
            },
    {
        let resp = match resp.ok() {
            Ok(x) => x,
            Err(e) => return Err(e),
        };
        let id = match resp.header("Session") {
            Some(v) => {
                let vc = chars_of(v);
                let parts = Span::new(v, vc.as_slice()).split(';');
                proof {
                    crate::text::lemma_split_nonempty(v@, ';');
                }
                assert(parts@[0].wf());
                assert(parts@[0]@ == split(v@, ';')[0]);
                parts[0].trim().to_string()
            },
            None => {
                return Err(protocol_error("SETUP response had no Session header".to_owned()));
            },
        };
        self.session_id = Some(id);
        self.state = State::Ready;
        Ok(resp)
    }

    /// The answer to PLAY: once the server accepted, the session is Playing.
    pub fn play_done(&mut self, resp: Response) -> (r: Result<Response>)
        ensures
            !(200 <= resp.status < 300) ==> (r matches Err(Error::Status { code, reason })
                && code == resp.status && reason == resp.reason && final(self)@ == old(self)@),
            200 <= resp.status < 300 ==> (r matches Ok(x) && x == resp && final(self)@ == (
            SessionView { state: State::Playing, ..old(self)@ })),
    {
        let resp = match resp.ok() {
            Ok(x) => x,
            Err(e) => return Err(e),
        };
        self.state = State::Playing;
        Ok(resp)
    }

    /// The answer to TEARDOWN: once the server accepted, the Session id is forgotten and
    /// the session is back to Init.
    pub fn teardown_done(&mut self, resp: Response) -> (r: Result<Response>)
        ensures
            !(200 <= resp.status < 300) ==> (r matches Err(Error::Status { code, reason })
                && code == resp.status && reason == resp.reason && final(self)@ == old(self)@),
            200 <= resp.status < 300 ==> (r matches Ok(x) && x == resp && final(self)@ == (
            SessionView { session_id: None, state: State::Init, ..old(self)@ })),
    {
        let resp = match resp.ok() {
            Ok(x) => x,
            Err(e) => return Err(e),
        };
        self.session_id = None;
        self.state = State::Init;
        Ok(resp)
    }

    /// The answer to OPTIONS (or a keepalive): the response, once the server accepted.
    pub fn options_done(&self, resp: Response) -> (r: Result<Response>)
        ensures
            !(200 <= resp.status < 300) ==> (r matches Err(Error::Status { code, reason })
                && code == resp.status && reason == resp.reason),
            200 <= resp.status < 300 ==> (r matches Ok(x) && x == resp),
    {
        resp.ok()
    }
}

/// A response that carries back, as its CSeq header, the CSeq that `request` wrote into
/// the request (its decimal digits) is matched to that request.
pub proof fn lemma_echoed_cseq_is_accepted(headers: Seq<(Seq<char>, Seq<char>)>, cseq: u32)
    requires
        header_value(headers, "CSeq"@) == Some(decimal(cseq as nat)),
    ensures
        cseq_echoed(headers, cseq),
{
    crate::text::lemma_parse_decimal(cseq as nat, 4294967295);
}

/// A response is matched to the last request only: when its CSeq header holds a number,
/// it is accepted exactly when that number is the CSeq of the last request, so the
/// answer to an earlier (or a later) request is refused; a CSeq header that holds no
/// number is refused too.
pub proof fn lemma_only_the_last_cseq_is_accepted(
    headers: Seq<(Seq<char>, Seq<char>)>,
    cseq: u32,
    echo: Seq<char>,
)
    requires
        header_value(headers, "CSeq"@) == Some(echo),
    ensures
        parse_unsigned(trim(echo), 4294967295) matches Some(n) ==> (cseq_echoed(headers, cseq)
            <==> n == cseq as nat),
        parse_unsigned(trim(echo), 4294967295) is None ==> !cseq_echoed(headers, cseq),
        forall|n: u32| #![trigger decimal(n as nat)]
            echo == decimal(n as nat) ==> (cseq_echoed(headers, cseq) <==> n == cseq),
{
    assert forall|n: u32| #![trigger decimal(n as nat)] echo == decimal(n as nat) implies (
    cseq_echoed(headers, cseq) <==> n == cseq) by {
        crate::text::lemma_parse_decimal(n as nat, 4294967295);
    }
}

/// The Session id is the text of the Session header before its first ';' (the
/// parameters that follow, such as ";timeout=60", are dropped), with the whitespace
/// around it trimmed; a value without ';' is the id as a whole.
pub proof fn lemma_session_id_is_before_first_semicolon(id: Seq<char>, params: Seq<char>)
    requires
        forall|i: int| 0 <= i < id.len() ==> id[i] != ';',
    ensures
        session_id_in(id) == trim(id),
        session_id_in(id + ";"@ + params) == trim(id),
{
    reveal_strlit(";");
    crate::text::lemma_find_from(id, ';', 0);
    assert(crate::text::find(id, ';') == id.len());
    assert(split(id, ';') == seq![id]);
    let v = id + ";"@ + params;
    crate::text::lemma_find_from(v, ';', 0);
    let k = crate::text::find(v, ';');
    assert(v[id.len() as int] == ';');
    if k < id.len() {
        assert(v[k] == id[k]);
    }
    assert(k == id.len());
    assert(v.take(k) =~= id);
    assert(split(v, ';')[0] == id);
}

/// The address to connect to is the host of the URL: for "rtsp://" + host + "/" + path,
/// with a non-empty host that holds no '/', it is the host (with ":554" when the host
/// names no port), whatever the path is, even one of several segments; the same holds
/// of a URL without a path.
pub proof fn lemma_authority_is_the_host(host: Seq<char>, path: Seq<char>)
    requires
        host.len() > 0,
        forall|i: int| 0 <= i < host.len() ==> host[i] != '/',
    ensures
        ({
            let expected = if exists|i: int| 0 <= i < host.len() && host[i] == ':' {
                host
            } else {
                host + ":554"@
            };
            &&& authority("rtsp://"@ + host + "/"@ + path) == Some(expected)
            &&& authority("rtsp://"@ + host) == Some(expected)
        }),
{
    reveal_strlit("rtsp://");
    reveal_strlit("/");
    let p = "rtsp://"@;
    let u1 = p + host + "/"@ + path;
    let r1 = host + "/"@ + path;
    assert(u1.take(7) =~= p);
    assert(u1.skip(7) =~= r1);
    assert(strip_prefix(u1, p) == Some(r1));
    crate::text::lemma_find_from(r1, '/', 0);
    let k = crate::text::find(r1, '/');
    assert(r1[host.len() as int] == '/');
    if k < host.len() {
        assert(r1[k] == host[k]);
    }
    assert(k == host.len());
    assert(r1.take(k) =~= host);
    assert(split(r1, '/')[0] == host);
    let u2 = p + host;
    assert(u2.take(7) =~= p);
    assert(u2.skip(7) =~= host);
    assert(strip_prefix(u2, p) == Some(host));
    crate::text::lemma_find_from(host, '/', 0);
    assert(crate::text::find(host, '/') == host.len());
    assert(split(host, '/') == seq![host]);
}

/// CSeq counts the requests of a connection: starting from a new session, the k-th
/// request carries CSeq k (the answers to requests leave the counter alone).
pub proof fn lemma_cseq_counts_requests(url: Seq<char>, k: nat)
    requires
        1 <= k <= u32::MAX,
    ensures
        after_requests(initial_session(url), k).cseq == k,
        after_requests(initial_session(url), (k - 1) as nat).cseq < u32::MAX,
    decreases k,
{
    if k > 1 {
        lemma_cseq_counts_requests(url, (k - 1) as nat);
    }
}

/// A request carries the Session header exactly when the server has issued an id (after
/// a successful SETUP, until TEARDOWN), and then with that id; User-Agent comes last.
pub proof fn lemma_session_header_follows_id(id: Option<Seq<char>>)
    ensures
        (exists|i: int|
            0 <= i < session_headers(id).len() && #[trigger] session_headers(id)[i].0 == "Session"@)
            <==> id is Some,
        id matches Some(x) ==> session_headers(id)[0] == ("Session"@, x),
        session_headers(id).last() == ("User-Agent"@, "rustsp"@),
{
    reveal_strlit("Session");
    reveal_strlit("User-Agent");
    assert("Session"@[0] == 'S');
    assert("User-Agent"@[0] == 'U');
    assert("User-Agent"@ != "Session"@);
    if id is None {
        assert(session_headers(id).len() == 1);
        assert(session_headers(id)[0].0 != "Session"@);
    } else {
        assert(session_headers(id)[0].0 == "Session"@);
    }
}

} // verus!
