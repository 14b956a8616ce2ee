use rustsp::error::Error;
use rustsp::rtp::packet::parse;

// V=2, P=0, X=0, CC=0 -> 0x80
// M=1, PT=96          -> 0x80 | 0x60 = 0xE0
const PLAIN: &[u8] = &[
    0x80, 0xE0, 0x12, 0x34, // version/flags, marker/pt, seq = 0x1234
    0x11, 0x22, 0x33, 0x44, // timestamp
    0xAA, 0xBB, 0xCC, 0xDD, // ssrc
    0x61, 0x00, 0x01, // payload
];

#[test]
fn parses_a_plain_packet() {
    let p = parse(PLAIN).unwrap();
    assert!(p.marker);
    assert_eq!(p.payload_type, 96);
    assert_eq!(p.sequence_number, 0x1234);
    assert_eq!(p.timestamp, 0x1122_3344);
    assert_eq!(p.ssrc, 0xAABB_CCDD);
    assert_eq!(p.payload, vec![0x61, 0x00, 0x01]);
}

#[test]
fn marker_bit_is_separate_from_payload_type() {
    let mut bytes = PLAIN.to_vec();
    bytes[1] = 0x60;
    let p = parse(&bytes).unwrap();
    assert!(!p.marker);
    assert_eq!(p.payload_type, 96);
}

#[test]
fn csrc_list_shifts_the_payload() {
    let bytes = [
        0x82, 0xE0, 0x00, 0x01, //
        0x00, 0x00, 0x00, 0x00, // timestamp
        0x00, 0x00, 0x00, 0x01, // ssrc
        0xC0, 0xC0, 0xC0, 0xC0, // csrc 1
        0xC1, 0xC1, 0xC1, 0xC1, // csrc 2
        0x41, 0x99, // payload
    ];
    let p = parse(&bytes).unwrap();
    assert_eq!(p.payload, vec![0x41, 0x99]);
}

#[test]
fn extension_header_shifts_the_payload() {
    let bytes = [
        0x90, 0xE0, 0x00, 0x01, //
        0x00, 0x00, 0x00, 0x00, // timestamp
        0x00, 0x00, 0x00, 0x01, // ssrc
        0xBE, 0xDE, 0x00, 0x01, // ext profile, ext length = 1 word
        0xEE, 0xEE, 0xEE, 0xEE, // one word of extension data
        0x41, 0x99, // payload
    ];
    let p = parse(&bytes).unwrap();
    assert_eq!(p.payload, vec![0x41, 0x99]);
}

#[test]
fn rejects_wrong_version() {
    let mut bytes = PLAIN.to_vec();
    bytes[0] = 0x40; // version 1
    assert!(parse(&bytes).is_err());
}

#[test]
fn rejects_a_header_that_is_too_short() {
    assert!(parse(&PLAIN[..8]).is_err());
}

#[test]
fn rejects_a_csrc_count_the_packet_is_too_short_for() {
    let mut bytes = PLAIN.to_vec();
    bytes[0] = 0x8F; // 1000 1111
    assert!(parse(&bytes).is_err());
}

#[test]
fn empty_payload_is_legal() {
    let p = parse(&PLAIN[..12]).unwrap();
    assert!(p.payload.is_empty());
}

#[test]
fn every_refusal_is_a_protocol_error() {
    assert!(matches!(parse(&[]), Err(Error::Protocol(_))));
    match parse(&[0x40; 12]) {
        Err(Error::Protocol(msg)) => assert!(msg.ends_with("0x01")),
        other => panic!("unexpected {other:?}"),
    }
    // X is set, but the 4 byte extension header does not fit.
    assert!(matches!(parse(&[0x90, 0, 0, 0, 0, 0, 0, 0, 0, 0, 0, 0, 0xBE]), Err(Error::Protocol(_))));
    // The extension header announces 2 words, but only 1 follows.
    let bytes = [
        0x90, 0x60, 0, 1, 0, 0, 0, 0, 0, 0, 0, 1, 0xBE, 0xDE, 0x00, 0x02, 1, 2, 3, 4,
    ];
    assert!(matches!(parse(&bytes), Err(Error::Protocol(_))));
}

#[test]
fn extension_and_csrc_list_add_up() {
    let mut bytes = vec![0x91, 0x7F, 0xFF, 0xFF, 0xFF, 0xFF, 0xFF, 0xFF, 0, 0, 0, 0];
    bytes.extend_from_slice(&[9, 9, 9, 9]); // one CSRC
    bytes.extend_from_slice(&[0, 0, 0, 2, 1, 1, 1, 1, 2, 2, 2, 2]); // extension, 2 words
    bytes.extend_from_slice(&[0xAB]);
    let p = parse(&bytes).unwrap();
    assert!(!p.marker);
    assert_eq!(p.payload_type, 127);
    assert_eq!(p.sequence_number, 65_535);
    assert_eq!(p.timestamp, 0xFFFF_FFFF);
    assert_eq!(p.ssrc, 0);
    assert_eq!(p.payload, vec![0xAB]);
}

#[test]
fn refusal_messages_name_the_sizes() {
    match parse(&[0x8F, 0, 0, 0, 0, 0, 0, 0, 0, 0, 0, 0]) {
        Err(Error::Protocol(m)) => {
            assert_eq!(m, "invalid packet data given, it needs 0x48 bytes minimun but got 0x0c")
        }
        other => panic!("unexpected {other:?}"),
    }
    match parse(&[0x90, 0, 0, 0, 0, 0, 0, 0, 0, 0, 0, 0, 0xBE]) {
        Err(Error::Protocol(m)) => {
            assert_eq!(m, "extension header needs 4 bytes at offset 12, but the packet has 13 bytes")
        }
        other => panic!("unexpected {other:?}"),
    }
}
