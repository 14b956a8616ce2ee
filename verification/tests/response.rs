use rustsp::cursor::ByteCursor;
use rustsp::error::Error;
use rustsp::rtsp::response::{body_length, parse_status_line, read, Phase, Response, ResponseReader};

#[test]
fn options_response_without_body() {
    let raw = "RTSP/1.0 200 OK\r\n\
               CSeq: 1\r\n\
               Public: DESCRIBE, SETUP, PLAY, TEARDOWN\r\n\
               \r\n";
    let r = read(&mut ByteCursor::new(raw.as_bytes())).unwrap();
    assert_eq!(r.status, 200);
    assert_eq!(r.reason, "OK");
    assert_eq!(r.header("cseq"), Some("1")); // the name is matched without case
    assert!(r.body.is_empty());
}

#[test]
fn body_is_read_by_length_and_nothing_more() {
    // The 5 bytes after the body stay in the reader: the next response starts there.
    let raw = "RTSP/1.0 200 OK\r\n\
               Content-Length: 4\r\n\
               \r\n\
               v=0\nLEFTO";
    let mut cursor = ByteCursor::new(raw.as_bytes());
    let r = read(&mut cursor).unwrap();
    assert_eq!(r.body, b"v=0\n");

    let rest = String::from_utf8(cursor.remaining()).unwrap();
    assert_eq!(rest, "LEFTO");
}

#[test]
fn header_value_may_contain_colons() {
    let raw = "RTSP/1.0 200 OK\r\n\
               RTP-Info: url=rtsp://h/s/track;seq=9810092\r\n\
               \r\n";
    let r = read(&mut ByteCursor::new(raw.as_bytes())).unwrap();
    assert_eq!(
        r.header("RTP-Info"),
        Some("url=rtsp://h/s/track;seq=9810092")
    );
}

#[test]
fn refusal_becomes_an_error() {
    let raw = "RTSP/1.0 459 Aggregate operation not allowed\r\n\r\n";
    let r = read(&mut ByteCursor::new(raw.as_bytes())).unwrap();
    assert_eq!(r.status, 459);
    assert!(r.ok().is_err());
}

fn response(status: u16, body: &[u8]) -> Response {
    Response { status, reason: "R".to_string(), headers: vec![], body: body.to_vec() }
}

#[test]
fn ok_keeps_2xx_and_refuses_the_rest() {
    assert!(response(200, b"").ok().is_ok());
    assert!(response(299, b"").ok().is_ok());
    match response(300, b"").ok() {
        Err(Error::Status { code, reason }) => {
            assert_eq!(code, 300);
            assert_eq!(reason, "R");
        }
        other => panic!("unexpected {other:?}"),
    }
    assert!(matches!(response(199, b"").ok(), Err(Error::Status { code: 199, .. })));
}

#[test]
fn status_line_parts() {
    assert_eq!(parse_status_line("RTSP/1.0 200 OK\r\n").unwrap(), (200, "OK".to_string()));
    assert_eq!(
        parse_status_line("RTSP/1.0 454 Session Not Found").unwrap(),
        (454, "Session Not Found".to_string())
    );
    assert_eq!(parse_status_line("RTSP/1.0 200").unwrap(), (200, String::new()));
    assert_eq!(parse_status_line("RTSP/2.0 +7 x\n\r\n").unwrap(), (7, "x".to_string()));
    assert!(matches!(parse_status_line("HTTP/1.1 200 OK"), Err(Error::Protocol(_))));
    assert!(matches!(parse_status_line("RTSP/1.0"), Err(Error::Protocol(_))));
    assert!(matches!(parse_status_line("RTSP/1.0 70000 Big"), Err(Error::Protocol(_))));
    assert!(matches!(parse_status_line("RTSP/1.0  200 OK"), Err(Error::Protocol(_))));
}

#[test]
fn failures_have_their_kinds() {
    // Nothing arrived at all.
    assert!(matches!(read(&mut ByteCursor::new(b"")), Err(Error::Protocol(_))));
    // The connection closed inside the headers.
    assert!(matches!(read(&mut ByteCursor::new(b"RTSP/1.0 200 OK\r\nCSeq: 1\r\n")), Err(Error::Protocol(_))));
    // A header line without a colon.
    assert!(matches!(read(&mut ByteCursor::new(b"RTSP/1.0 200 OK\r\nbroken\r\n\r\n")), Err(Error::Protocol(_))));
    // A line that is not UTF-8.
    assert!(matches!(read(&mut ByteCursor::new(b"RTSP/1.0 200 \xFF\r\n\r\n")), Err(Error::Io(_))));
    // The body is shorter than announced.
    let mut c = ByteCursor::new(b"RTSP/1.0 200 OK\r\nContent-Length: 9\r\n\r\nabc");
    assert!(matches!(read(&mut c), Err(Error::Io(_))));
    assert!(c.remaining().is_empty());
}

#[test]
fn headers_are_trimmed_and_found_first_match() {
    let raw = "RTSP/1.0 200 OK\n  x-a :  one \r\nX-A:two\r\ncontent-LENGTH:2\r\n\r\nhi";
    let r = read(&mut ByteCursor::new(raw.as_bytes())).unwrap();
    assert_eq!(r.headers, vec![
        ("x-a".to_string(), "one".to_string()),
        ("X-A".to_string(), "two".to_string()),
        ("content-LENGTH".to_string(), "2".to_string()),
    ]);
    assert_eq!(r.header("X-a"), Some("one"));
    assert_eq!(r.header("missing"), None);
    assert_eq!(r.body, b"hi");
}

#[test]
fn body_length_is_zero_without_a_number() {
    let h = |v: &str| vec![("Content-Length".to_string(), v.to_string())];
    assert_eq!(body_length(&h("12")), 12);
    assert_eq!(body_length(&h("abc")), 0);
    assert_eq!(body_length(&h("")), 0);
    assert_eq!(body_length(&vec![]), 0);
}

#[test]
fn body_text_replaces_what_is_not_utf8() {
    assert_eq!(response(200, b"v=0\r\n").body_text(), "v=0\r\n");
    assert_eq!(response(200, b"a\xFFb").body_text(), "a\u{FFFD}b");
}

#[test]
fn reader_says_when_the_body_comes() {
    let mut rr = ResponseReader::new();
    assert_eq!(rr.phase(), Phase::StatusLine);
    rr.feed_line(Some("RTSP/1.0 200 OK\r\n")).unwrap();
    assert_eq!(rr.phase(), Phase::Headers);
    rr.feed_line(Some("Content-Length: 3\r\n")).unwrap();
    rr.feed_line(Some("\r\n")).unwrap();
    assert_eq!(rr.phase(), Phase::Body(3));
    assert!(rr.feed_line(Some("more\r\n")).is_err());
    let r = rr.finish(b"abc".to_vec());
    assert_eq!(r.status, 200);
    assert_eq!(r.body, b"abc");
}

#[test]
fn bad_lines_are_quoted_with_escapes() {
    match parse_status_line("HTTP/1.1 \"x\"\t\\\u{1}\r\n") {
        Err(Error::Protocol(msg)) => {
            assert_eq!(msg, "expected an RTSP status line, got \"HTTP/1.1 \\\"x\\\"\\t\\\\\\u{1}\"")
        }
        other => panic!("unexpected {other:?}"),
    }
    match read(&mut ByteCursor::new(b"RTSP/1.0 200 OK\r\nno colon here\r\n\r\n")) {
        Err(Error::Protocol(msg)) => assert_eq!(msg, "header line has no colon: \"no colon here\""),
        other => panic!("unexpected {other:?}"),
    }
    match read(&mut ByteCursor::new(b"RTSP/1.0 200 OK\r\n")) {
        Err(Error::Protocol(msg)) => assert_eq!(msg, "connection closed inside the headers"),
        other => panic!("unexpected {other:?}"),
    }
}
