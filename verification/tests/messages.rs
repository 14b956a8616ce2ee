use rustsp::cursor::ByteCursor;
use rustsp::error::Error;
use rustsp::rtp::h264::Depacketizer;
use rustsp::rtp::packet::parse as parse_packet;
use rustsp::rtsp::response::{parse_status_line, read, Response};
use rustsp::rtsp::{authority_of, Session};
use rustsp::sdp::parse as parse_sdp;
use rustsp::transport::read_frame;

fn protocol_message<T: std::fmt::Debug>(r: Result<T, Error>) -> String {
    match r {
        Err(Error::Protocol(m)) => m,
        other => panic!("expected a Protocol error, got {other:?}"),
    }
}

fn response_of(text: &str) -> Response {
    read(&mut ByteCursor::new(text.as_bytes())).unwrap()
}

#[test]
fn non_ascii_control_characters_are_escaped_in_quotes() {
    let m = protocol_message(parse_status_line("X\u{85}\u{7f}é\r\n"));
    assert_eq!(m, "expected an RTSP status line, got \"X\\u{85}\\u{7f}é\"");
    let m = protocol_message(parse_status_line("RTSP/1.0 2x\u{2028} OK\r\n"));
    assert_eq!(m, "no status code in \"RTSP/1.0 2x\\u{2028} OK\"");
}

#[test]
fn depacketizer_messages() {
    let mut d = Depacketizer::new();
    assert_eq!(protocol_message(d.push(1, &[])), "empty payload is given");
    assert_eq!(
        protocol_message(d.push(1, &[0x78, 0x00, 0x05, 0xAA])),
        "insufficient payload is given for STAP-A type payload"
    );
    assert_eq!(protocol_message(d.push(1, &[0x7C])), "FU-A payload is too short");
    assert_eq!(protocol_message(d.push(1, &[0x7E, 0x00])), "unsupported NAL type 30");
    assert_eq!(protocol_message(d.push(1, &[0x60])), "unsupported NAL type 0");
}

#[test]
fn packet_messages() {
    assert_eq!(protocol_message(parse_packet(&[])), "empty bytes are given");
    assert_eq!(
        protocol_message(parse_packet(&[0x40, 0, 0, 0, 0, 0, 0, 0, 0, 0, 0, 0])),
        "expected 'version 2' on RTP packet, got 0x01"
    );
    assert_eq!(
        protocol_message(parse_packet(&[0x90, 0, 0, 0, 0, 0, 0, 0, 0, 0, 0, 0, 0, 0, 0, 1])),
        "to get payload from the given bytes, need more than 20 bytes, but the packet has only 16 bytes"
    );
}

#[test]
fn frame_and_sdp_messages() {
    let m = protocol_message(read_frame(&mut ByteCursor::new(&[0x0A, 0, 0, 0])));
    assert_eq!(m, "expected '$' at the start of an interleaved frame, got 0x0a");
    assert_eq!(protocol_message(parse_sdp("v=0\r\n")), "SDP contained no m= line");
}

#[test]
fn reader_messages() {
    let m = protocol_message(read(&mut ByteCursor::new(b"")));
    assert_eq!(m, "connection closed before a status line arrived");
}

#[test]
fn session_messages() {
    assert_eq!(protocol_message(authority_of("http://h/s")), "url must start with rtsp:// : http://h/s");
    assert_eq!(protocol_message(authority_of("rtsp:///s")), "url has no host: rtsp:///s");
    let mut session = Session::new("rtsp://h/s");
    let _ = session.options_request();
    assert_eq!(
        protocol_message(session.check_response(response_of("RTSP/1.0 200 OK\r\nCSeq: 7 \r\n\r\n"))),
        "CSeq mismatch: sent 1, got 7"
    );
    assert_eq!(protocol_message(session.play_request()), "PLAY requires state Ready, was Init");
    let _ = session.setup_request("rtsp://h/s/t");
    assert_eq!(
        protocol_message(session.setup_done(response_of("RTSP/1.0 200 OK\r\n\r\n"))),
        "SETUP response had no Session header"
    );
}
