use rustsp::cursor::ByteCursor;
use rustsp::error::Error;
use rustsp::rtsp::response::{read, Response};
use rustsp::rtsp::{authority_of, Session, State};
use rustsp::sdp::resolve_control;

#[test]
fn authority_parsing() {
    assert_eq!(authority_of("rtsp://127.0.0.1:8554/test").unwrap(), "127.0.0.1:8554");
    assert_eq!(authority_of("rtsp://cam.local/stream").unwrap(), "cam.local:554");
    assert!(authority_of("http://x/y").is_err());
}

#[test]
fn authority_needs_a_host() {
    assert!(matches!(authority_of("rtsp:///stream"), Err(Error::Protocol(_))));
    assert_eq!(authority_of("rtsp://h").unwrap(), "h:554");
}

const SDP: &str = "v=0\r\n\
    o=- 0 0 IN IP4 127.0.0.1\r\n\
    s=Stream\r\n\
    t=0 0\r\n\
    a=control:*\r\n\
    m=video 0 RTP/AVP 96\r\n\
    a=rtpmap:96 H264/90000\r\n\
    a=fmtp:96 sprop-parameter-sets=Z0IAKeKQCgC3YC3AWA==,aM48gA==\r\n\
    a=control:trackID=0\r\n";

/// What the mock server answers to one request, as it would over the wire.
fn mock_reply(request: &str) -> String {
    let method = request.split(' ').next().unwrap_or("").to_string();
    let cseq = request
        .lines()
        .find_map(|l| l.strip_prefix("CSeq:"))
        .map(|v| v.trim().to_string())
        .unwrap_or_default();
    match method.as_str() {
        "OPTIONS" => format!(
            "RTSP/1.0 200 OK\r\nCSeq: {cseq}\r\n\
             Public: DESCRIBE, SETUP, PLAY, TEARDOWN\r\n\r\n"
        ),
        "DESCRIBE" => format!(
            "RTSP/1.0 200 OK\r\nCSeq: {cseq}\r\n\
             Content-Type: application/sdp\r\n\
             Content-Length: {}\r\n\r\n{SDP}",
            SDP.len()
        ),
        "SETUP" => format!(
            "RTSP/1.0 200 OK\r\nCSeq: {cseq}\r\n\
             Transport: RTP/AVP/TCP;unicast;interleaved=0-1\r\n\
             Session: 12345678;timeout=60\r\n\r\n"
        ),
        "PLAY" => format!(
            "RTSP/1.0 200 OK\r\nCSeq: {cseq}\r\nSession: 12345678\r\n\
             RTP-Info: url=rtsp://x/test/trackID=0;seq=9810;rtptime=345\r\n\r\n"
        ),
        "TEARDOWN" => format!("RTSP/1.0 200 OK\r\nCSeq: {cseq}\r\n\r\n"),
        _ => format!("RTSP/1.0 501 Not Implemented\r\nCSeq: {cseq}\r\n\r\n"),
    }
}

/// Sends `request` to the mock server and reads its reply, as a connection would.
fn exchange(session: &Session, request: &str, seen: &mut Vec<String>) -> Response {
    seen.push(request.to_string());
    let reply = mock_reply(request);
    let resp = read(&mut ByteCursor::new(reply.as_bytes())).unwrap();
    session.check_response(resp).unwrap()
}

#[test]
fn full_handshake() {
    let url = "rtsp://127.0.0.1:8554/test";
    let mut seen = Vec::new();
    let mut session = Session::new(url);

    let raw = session.options_request();
    let options = session.options_done(exchange(&session, &raw, &mut seen)).unwrap();
    assert!(options.header("Public").unwrap().contains("SETUP"));
    assert_eq!(session.state(), State::Init);

    let raw = session.describe_request();
    let sdp = session.describe_done(exchange(&session, &raw, &mut seen)).unwrap();
    let video = sdp.video().unwrap();
    assert_eq!(video.payload_type, 96);
    assert_eq!(video.control.as_deref(), Some("trackID=0"));
    assert!(video.sps.is_some() && video.pps.is_some());

    let track = resolve_control(session.base_url(), "trackID=0");
    let raw = session.setup_request(&track);
    session.setup_done(exchange(&session, &raw, &mut seen)).unwrap();
    assert_eq!(session.session_id(), Some("12345678")); // ";timeout=60" stripped
    assert_eq!(session.state(), State::Ready);

    let raw = session.play_request().unwrap();
    let play = session.play_done(exchange(&session, &raw, &mut seen)).unwrap();
    assert!(play.header("RTP-Info").unwrap().contains("seq=9810"));
    assert_eq!(session.state(), State::Playing);

    let raw = session.teardown_request();
    session.teardown_done(exchange(&session, &raw, &mut seen)).unwrap();
    assert_eq!(session.state(), State::Init);
    assert_eq!(session.session_id(), None);

    // What went over the wire.
    let methods: Vec<&str> = seen.iter().map(|r| r.split(' ').next().unwrap()).collect();
    assert_eq!(methods, ["OPTIONS", "DESCRIBE", "SETUP", "PLAY", "TEARDOWN"]);

    // CSeq increments by one per request, starting at 1.
    for (i, r) in seen.iter().enumerate() {
        assert!(
            r.contains(&format!("CSeq: {}\r\n", i + 1)),
            "request {i} had the wrong CSeq:\n{r}"
        );
        assert!(r.ends_with("\r\n\r\n"), "request {i} was not terminated once");
    }

    // Session is absent until SETUP replies, then present on every request.
    assert!(!seen[0].contains("Session:"));
    assert!(!seen[2].contains("Session:")); // the SETUP request itself
    assert!(seen[3].contains("Session: 12345678\r\n")); // PLAY
    assert!(seen[4].contains("Session: 12345678\r\n")); // TEARDOWN

    // SETUP goes to the track url, PLAY to the aggregate url.
    assert!(seen[2].starts_with("SETUP rtsp://127.0.0.1:"));
    assert!(seen[2].lines().next().unwrap().contains("/test/trackID=0"));
    assert!(seen[3].lines().next().unwrap().ends_with("/test RTSP/1.0"));
}

#[test]
fn play_before_setup_is_rejected_locally() {
    let mut session = Session::new("rtsp://127.0.0.1:8554/test");
    // No SETUP, so no Session id: PLAY is refused before anything is sent.
    assert!(session.play_request().is_err());
    assert_eq!(session.cseq(), 0);
}

#[test]
fn requests_carry_cseq_session_and_user_agent() {
    let mut session = Session::new("rtsp://h/s/");
    assert_eq!(session.base_url(), "rtsp://h/s");
    let r = session.request("GET_PARAMETER", "rtsp://h/s", &[("X", "1")]);
    assert_eq!(r, "GET_PARAMETER rtsp://h/s RTSP/1.0\r\nCSeq: 1\r\nX: 1\r\nUser-Agent: rustsp\r\n\r\n");
    assert_eq!(session.keepalive_request(), "OPTIONS rtsp://h/s RTSP/1.0\r\nCSeq: 2\r\nUser-Agent: rustsp\r\n\r\n");
}

fn reply(text: &str) -> Response {
    read(&mut ByteCursor::new(text.as_bytes())).unwrap()
}

#[test]
fn a_wrong_cseq_echo_is_a_protocol_error() {
    let mut session = Session::new("rtsp://h/s");
    let _ = session.options_request();
    assert!(session.check_response(reply("RTSP/1.0 200 OK\r\nCSeq:  1 \r\n\r\n")).is_ok());
    assert!(session.check_response(reply("RTSP/1.0 200 OK\r\n\r\n")).is_ok());
    assert!(matches!(
        session.check_response(reply("RTSP/1.0 200 OK\r\nCSeq: 2\r\n\r\n")),
        Err(Error::Protocol(_))
    ));
    assert!(matches!(
        session.check_response(reply("RTSP/1.0 200 OK\r\ncseq: one\r\n\r\n")),
        Err(Error::Protocol(_))
    ));
}

#[test]
fn setup_needs_a_session_header_and_acceptance() {
    let mut session = Session::new("rtsp://h/s");
    let _ = session.setup_request("rtsp://h/s/t");
    assert!(matches!(
        session.setup_done(reply("RTSP/1.0 200 OK\r\n\r\n")),
        Err(Error::Protocol(_))
    ));
    assert!(matches!(
        session.setup_done(reply("RTSP/1.0 459 Aggregate operation not allowed\r\nSession: 1\r\n\r\n")),
        Err(Error::Status { code: 459, .. })
    ));
    assert_eq!(session.state(), State::Init);
    assert_eq!(session.session_id(), None);
    session.setup_done(reply("RTSP/1.0 200 OK\r\nsession:  abc ; timeout=60\r\n\r\n")).unwrap();
    assert_eq!(session.session_id(), Some("abc"));
    assert_eq!(session.state(), State::Ready);
}

#[test]
fn play_outside_ready_touches_nothing() {
    let mut session = Session::new("rtsp://h/s");
    let _ = session.options_request();
    assert!(matches!(session.play_request(), Err(Error::Protocol(_))));
    assert_eq!(session.cseq(), 1);
    assert_eq!(session.state(), State::Init);
    assert_eq!(session.session_id(), None);
}
