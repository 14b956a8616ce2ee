use rustsp::cursor::ByteCursor;
use rustsp::error::Error;
use rustsp::transport::{frame_header, read_frame, CHANNEL_RTCP, CHANNEL_RTP, MAGIC};

#[test]
fn reads_one_rtp_frame() {
    //                     $   | ch0 | len = 4  |        payload
    let bytes = [0x24, 0x00, 0x00, 0x04, 0xDE, 0xAD, 0xBE, 0xEF];
    let frame = read_frame(&mut ByteCursor::new(&bytes[..])).unwrap();
    assert_eq!(frame.channel, CHANNEL_RTP);
    assert_eq!(frame.payload, vec![0xDE, 0xAD, 0xBE, 0xEF]);
}

#[test]
fn length_is_big_endian() {
    // 0x0102 = 258, not 0x0201 = 513
    let mut bytes = vec![0x24, 0x00, 0x01, 0x02];
    bytes.extend(std::iter::repeat_n(0xAB, 258));
    let frame = read_frame(&mut ByteCursor::new(&bytes[..])).unwrap();
    assert_eq!(frame.payload.len(), 258);
}

#[test]
fn consecutive_frames_do_not_bleed_into_each_other() {
    let bytes = [
        0x24, 0x00, 0x00, 0x02, 0x11, 0x22, // RTP frame
        0x24, 0x01, 0x00, 0x03, 0x33, 0x44, 0x55, // RTCP frame
    ];
    let mut cursor = ByteCursor::new(&bytes[..]);

    let first = read_frame(&mut cursor).unwrap();
    assert_eq!(first.channel, CHANNEL_RTP);
    assert_eq!(first.payload, vec![0x11, 0x22]);

    let second = read_frame(&mut cursor).unwrap();
    assert_eq!(second.channel, CHANNEL_RTCP);
    assert_eq!(second.payload, vec![0x33, 0x44, 0x55]);
}

#[test]
fn zero_length_frame_is_legal() {
    let bytes = [0x24, 0x00, 0x00, 0x00];
    let frame = read_frame(&mut ByteCursor::new(&bytes[..])).unwrap();
    assert!(frame.payload.is_empty());
}

#[test]
fn rejects_a_non_dollar_first_byte() {
    // An RTSP response arriving where a frame was expected.
    let bytes = b"RTSP/1.0 200 OK\r\n\r\n";
    assert!(read_frame(&mut ByteCursor::new(&bytes[..])).is_err());
}

#[test]
fn truncated_payload_is_an_error_not_a_short_frame() {
    // The header announces 8 bytes, but only 3 follow.
    let bytes = [0x24, 0x00, 0x00, 0x08, 0x01, 0x02, 0x03];
    assert!(read_frame(&mut ByteCursor::new(&bytes[..])).is_err());
}

#[test]
fn a_truncated_header_is_an_error_not_an_empty_frame() {
    // Only 3 of the 4 header bytes arrive.
    let bytes = [0x24, 0x00, 0x00];
    let mut reader = ByteCursor::new(&bytes[..]);
    assert!(read_frame(&mut reader).is_err());
}

#[test]
fn failures_have_their_kinds_and_positions() {
    let mut short = ByteCursor::new(&[0x24, 0x00, 0x00]);
    assert!(matches!(read_frame(&mut short), Err(Error::Io(_))));
    assert_eq!(short.position(), 3);

    let mut cut = ByteCursor::new(&[0x24, 0x00, 0x00, 0x08, 0x01]);
    assert!(matches!(read_frame(&mut cut), Err(Error::Io(_))));
    assert_eq!(cut.position(), 5);

    let mut text = ByteCursor::new(b"RTSP/1.0 200 OK\r\n");
    match read_frame(&mut text) {
        Err(Error::Protocol(msg)) => assert!(msg.ends_with("0x52")),
        other => panic!("unexpected {other:?}"),
    }
    assert_eq!(text.position(), 4);
}

#[test]
fn frame_header_reads_channel_and_length() {
    assert_eq!(MAGIC, b'$');
    assert_eq!(frame_header(&[0x24, 0x01, 0x01, 0x02]).unwrap(), (1, 258));
    assert!(matches!(frame_header(&[0x25, 0x01, 0x01, 0x02]), Err(Error::Protocol(_))));
}

#[test]
fn the_next_frame_starts_right_after_the_payload() {
    let bytes = [0x24, 0x02, 0x00, 0x01, 0x7F, 0xAA, 0xBB];
    let mut cursor = ByteCursor::new(&bytes);
    let frame = read_frame(&mut cursor).unwrap();
    assert_eq!(frame.channel, 2);
    assert_eq!(frame.payload, vec![0x7F]);
    assert_eq!(cursor.remaining(), vec![0xAA, 0xBB]);
}
