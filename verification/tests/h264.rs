use rustsp::error::Error;
use rustsp::rtp::h264::{Depacketizer, NAL_FU_A, NAL_STAP_A, START_CODE};

// 0x41 = 0b0100_0001 -> F=0, NRI=2, type=1 (non IDR slice)
#[test]
fn single_nal_passes_through_unchanged() {
    let mut d = Depacketizer::new();
    let out = d.push(100, &[0x41, 0xAA, 0xBB]).unwrap();
    assert_eq!(out, vec![vec![0x41, 0xAA, 0xBB]]);
}

// 0x78 = 0b0111_1000 -> F=0, NRI=3, type=24 (STAP-A)
#[test]
fn stap_a_yields_every_packed_nal() {
    let mut d = Depacketizer::new();
    let payload = [
        0x78, // STAP-A indicator
        0x00, 0x04, 0x67, 0x42, 0x00, 0x1E, // len 4, SPS (type 7)
        0x00, 0x04, 0x68, 0xCE, 0x38, 0x80, // len 4, PPS (type 8)
    ];
    let out = d.push(100, &payload).unwrap();
    assert_eq!(
        out,
        vec![vec![0x67, 0x42, 0x00, 0x1E], vec![0x68, 0xCE, 0x38, 0x80],]
    );
}

// FU-A indicator 0x7C = F=0, NRI=3, type=28.
// FU header: S=0x80, E=0x40, then the real NAL type in the low 5 bits.
// The rebuilt NAL header is (0x7C & 0xE0) | 5 = 0x65, which is an IDR slice.
#[test]
fn fu_a_reassembles_across_three_fragments() {
    let mut d = Depacketizer::new();

    assert!(d.push(10, &[0x7C, 0x85, 0xAA, 0xBB]).unwrap().is_empty()); // S=1
    assert!(d.push(11, &[0x7C, 0x05, 0xCC]).unwrap().is_empty()); // middle
    let out = d.push(12, &[0x7C, 0x45, 0xDD]).unwrap(); // E=1

    assert_eq!(out, vec![vec![0x65, 0xAA, 0xBB, 0xCC, 0xDD]]);
}

#[test]
fn fu_a_without_a_start_fragment_is_dropped() {
    let mut d = Depacketizer::new();
    // The first fragment ever seen is a middle fragment.
    assert!(d.push(11, &[0x7C, 0x05, 0xCC]).unwrap().is_empty());
    assert!(d.push(12, &[0x7C, 0x45, 0xDD]).unwrap().is_empty());
}

#[test]
fn a_sequence_gap_discards_the_partial_nal() {
    let mut d = Depacketizer::new();
    d.push(10, &[0x7C, 0x85, 0xAA]).unwrap(); // start
    // Sequence number 11 never arrived, and 12 arrives instead.
    assert!(d.push(12, &[0x7C, 0x45, 0xDD]).unwrap().is_empty());
}

#[test]
fn recovers_on_the_next_start_fragment_after_a_gap() {
    let mut d = Depacketizer::new();
    d.push(10, &[0x7C, 0x85, 0xAA]).unwrap();
    d.push(12, &[0x7C, 0x45, 0xDD]).unwrap(); // dropped because of the gap

    d.push(13, &[0x7C, 0x85, 0x11]).unwrap();
    let out = d.push(14, &[0x7C, 0x45, 0x22]).unwrap();
    assert_eq!(out, vec![vec![0x65, 0x11, 0x22]]);
}

#[test]
fn sequence_number_wraps_around_at_65535() {
    let mut d = Depacketizer::new();
    d.push(65_535, &[0x7C, 0x85, 0xAA]).unwrap();
    // 0 comes directly after 65535.
    let out = d.push(0, &[0x7C, 0x45, 0xBB]).unwrap();
    assert_eq!(out, vec![vec![0x65, 0xAA, 0xBB]]);
}

#[test]
fn single_nal_in_the_middle_clears_any_partial_state() {
    let mut d = Depacketizer::new();
    d.push(10, &[0x7C, 0x85, 0xAA]).unwrap(); // the start of a fragmented NAL
    let out = d.push(11, &[0x41, 0x99]).unwrap(); // a complete NAL arrives instead
    assert_eq!(out, vec![vec![0x41, 0x99]]);
    // The abandoned fragment must not appear again later.
    assert!(d.push(12, &[0x7C, 0x45, 0xDD]).unwrap().is_empty());
}

#[test]
fn empty_payload_is_an_error() {
    let mut d = Depacketizer::new();
    assert!(d.push(10, &[]).is_err());
}

#[test]
fn truncated_stap_a_is_an_error() {
    let mut d = Depacketizer::new();
    // The first NAL unit claims 8 bytes, but only 2 follow.
    assert!(d.push(10, &[0x78, 0x00, 0x08, 0x67, 0x42]).is_err());
}

#[test]
fn constants_have_their_rfc_values() {
    assert_eq!(START_CODE, [0x00, 0x00, 0x00, 0x01]);
    assert_eq!(NAL_STAP_A, 24);
    assert_eq!(NAL_FU_A, 28);
}

#[test]
fn unsupported_nal_types_are_protocol_errors() {
    for t in [0u8, 25, 26, 27, 29, 30, 31] {
        let mut d = Depacketizer::new();
        match d.push(1, &[0x60 | t, 0x01]) {
            Err(Error::Protocol(msg)) => assert!(msg.ends_with(&t.to_string())),
            other => panic!("type {t}: unexpected {other:?}"),
        }
    }
}

#[test]
fn short_fu_a_is_an_error_and_keeps_the_partial_nal() {
    let mut d = Depacketizer::new();
    d.push(1, &[0x7C, 0x85, 0xAA]).unwrap();
    assert!(matches!(d.push(2, &[0x7C]), Err(Error::Protocol(_))));
    // The error changed nothing: the reassembly goes on with 2.
    let out = d.push(2, &[0x7C, 0x45, 0xBB]).unwrap();
    assert_eq!(out, vec![vec![0x65, 0xAA, 0xBB]]);
}

#[test]
fn truncated_stap_a_still_clears_the_partial_nal() {
    let mut d = Depacketizer::new();
    d.push(1, &[0x7C, 0x85, 0xAA]).unwrap();
    assert!(d.push(2, &[0x78, 0x00, 0x08, 0x67]).is_err());
    assert!(d.push(3, &[0x7C, 0x45, 0xBB]).unwrap().is_empty());
}

#[test]
fn stap_a_ignores_a_single_trailing_byte() {
    let mut d = Depacketizer::new();
    let out = d.push(1, &[0x78, 0x00, 0x01, 0x09, 0x00]).unwrap();
    assert_eq!(out, vec![vec![0x09]]);
}

#[test]
fn stap_a_round_trip_of_packed_units() {
    // Law: packing units with their big endian lengths and pushing the result gives the
    // units back.
    let units: Vec<Vec<u8>> = vec![vec![0x67; 300], vec![], vec![0x68, 0x01]];
    let mut payload = vec![0x18];
    for u in &units {
        payload.push((u.len() / 256) as u8);
        payload.push((u.len() % 256) as u8);
        payload.extend_from_slice(u);
    }
    let mut d = Depacketizer::new();
    assert_eq!(d.push(5, &payload).unwrap(), units);
}

#[test]
fn fu_a_round_trip_of_four_fragments() {
    // Law: the fragments of one NAL unit, pushed with consecutive sequence numbers,
    // give the unit back once.
    let nal_header = 0x25u8;
    let bodies: Vec<Vec<u8>> = vec![vec![1, 2], vec![3], vec![], vec![4, 5, 6]];
    let mut d = Depacketizer::new();
    let mut produced = Vec::new();
    for (i, body) in bodies.iter().enumerate() {
        let s = if i == 0 { 0x80 } else { 0 };
        let e = if i == bodies.len() - 1 { 0x40 } else { 0 };
        let mut p = vec![(nal_header & 0xE0) | 28, s | e | (nal_header & 0x1F)];
        p.extend_from_slice(body);
        produced.extend(d.push(65_534u16.wrapping_add(i as u16), &p).unwrap());
    }
    assert_eq!(produced, vec![vec![0x25, 1, 2, 3, 4, 5, 6]]);
}

#[test]
fn a_start_fragment_replaces_a_partial_nal() {
    let mut d = Depacketizer::new();
    d.push(1, &[0x7C, 0x85, 0xAA]).unwrap();
    d.push(7, &[0x7C, 0x81, 0xBB]).unwrap();
    let out = d.push(8, &[0x7C, 0x41, 0xCC]).unwrap();
    assert_eq!(out, vec![vec![0x61, 0xBB, 0xCC]]);
}

fn fragments() -> Vec<Vec<u8>> {
    // A start fragment that also carries the E bit, two middle fragments, an end fragment.
    vec![vec![0x5C, 0xC7, 1], vec![0x5C, 0x07, 2, 3], vec![0x5C, 0x07], vec![0x5C, 0x47, 4]]
}

#[test]
fn reassembly_of_any_fragments_with_consecutive_numbers() {
    // Law: every push but the last returns nothing, the last returns the whole unit.
    let mut d = Depacketizer::new();
    d.push(3, &[0x7C, 0x81, 0xEE]).unwrap(); // a reassembly already under way
    let seqs = [65_534u16, 65_535, 0, 1];
    let outs: Vec<Vec<Vec<u8>>> = fragments()
        .iter()
        .zip(seqs)
        .map(|(f, s)| d.push(s, f).unwrap())
        .collect();
    assert_eq!(outs, vec![vec![], vec![], vec![], vec![vec![0x47, 1, 2, 3, 4]]]);
}

#[test]
fn reassembly_with_a_missing_number_yields_nothing() {
    // Law: with a gap anywhere, every push returns nothing.
    for gap_at in 1..4 {
        let mut d = Depacketizer::new();
        for (i, f) in fragments().iter().enumerate() {
            let s = 100 + i as u16 + if i >= gap_at { 1 } else { 0 };
            assert!(d.push(s, f).unwrap().is_empty());
        }
    }
}
