use rustsp::error::Error;
use rustsp::media::{annex_b_unit, depacketize_frame, parameter_set_units};
use rustsp::rtp::h264::Depacketizer;
use rustsp::transport::Frame;

fn rtp(seq: u16, payload: &[u8]) -> Vec<u8> {
    let mut b = vec![0x80, 0x60, (seq >> 8) as u8, seq as u8, 0, 0, 0, 0, 0, 0, 0, 1];
    b.extend_from_slice(payload);
    b
}

#[test]
fn rtcp_frames_are_skipped() {
    let mut d = Depacketizer::new();
    let frame = Frame { channel: 1, payload: vec![0x80, 0xC8, 0, 6] };
    assert!(depacketize_frame(&mut d, &frame).unwrap().is_none());
}

#[test]
fn rtp_frames_yield_their_nal_units() {
    let mut d = Depacketizer::new();
    let start = Frame { channel: 0, payload: rtp(7, &[0x7C, 0x85, 0xAA]) };
    let (p, units) = depacketize_frame(&mut d, &start).unwrap().unwrap();
    assert_eq!(p.sequence_number, 7);
    assert!(units.is_empty());
    let end = Frame { channel: 0, payload: rtp(8, &[0x7C, 0x45, 0xBB]) };
    let (_, units) = depacketize_frame(&mut d, &end).unwrap().unwrap();
    assert_eq!(units, vec![vec![0x65, 0xAA, 0xBB]]);
}

#[test]
fn malformed_rtp_is_a_protocol_error() {
    let mut d = Depacketizer::new();
    let frame = Frame { channel: 0, payload: vec![0x40, 0x60] };
    assert!(matches!(depacketize_frame(&mut d, &frame), Err(Error::Protocol(_))));
    let empty = Frame { channel: 0, payload: rtp(1, &[]) };
    assert!(matches!(depacketize_frame(&mut d, &empty), Err(Error::Protocol(_))));
}

#[test]
fn annex_b_framing() {
    assert_eq!(annex_b_unit(&[0x65, 0x01]), vec![0, 0, 0, 1, 0x65, 0x01]);
    assert_eq!(
        parameter_set_units(Some(&[0x67]), Some(&[0x68, 0xCE])),
        vec![0, 0, 0, 1, 0x67, 0, 0, 0, 1, 0x68, 0xCE]
    );
    assert_eq!(parameter_set_units(None, Some(&[0x68])), vec![0, 0, 0, 1, 0x68]);
    assert!(parameter_set_units(None, None).is_empty());
}
