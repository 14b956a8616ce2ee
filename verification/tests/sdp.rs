use rustsp::error::Error;
use rustsp::sdp::{base64_decode, parse, resolve_control};

// The SDP that mediamtx sends for an H.264 stream.
const MEDIAMTX_SDP: &str = "v=0\r\n\
    o=- 0 0 IN IP4 127.0.0.1\r\n\
    s=Stream\r\n\
    c=IN IP4 0.0.0.0\r\n\
    t=0 0\r\n\
    a=control:*\r\n\
    m=video 0 RTP/AVP 96\r\n\
    a=rtpmap:96 H264/90000\r\n\
    a=fmtp:96 packetization-mode=1; sprop-parameter-sets=Z0IAKeKQCgC3YC3AWA==,aM48gA==\r\n\
    a=control:trackID=0\r\n";

#[test]
fn finds_the_video_track() {
    let sdp = parse(MEDIAMTX_SDP).unwrap();
    let v = sdp.video().expect("a video track");
    assert_eq!(v.payload_type, 96);
    assert_eq!(v.encoding.as_deref(), Some("H264"));
    assert_eq!(v.clock_rate, Some(90_000));
    assert_eq!(v.control.as_deref(), Some("trackID=0"));
}

#[test]
fn extracts_sps_and_pps() {
    let sdp = parse(MEDIAMTX_SDP).unwrap();
    let v = sdp.video().unwrap();
    // The NAL type sits in the lowest 5 bits: 7 means SPS, 8 means PPS.
    assert_eq!(v.sps.as_ref().unwrap()[0] & 0x1F, 7);
    assert_eq!(v.pps.as_ref().unwrap()[0] & 0x1F, 8);
}

#[test]
fn session_control_is_separate_from_track_control() {
    let sdp = parse(MEDIAMTX_SDP).unwrap();
    assert_eq!(sdp.session_control.as_deref(), Some("*"));
    assert_eq!(sdp.video().unwrap().control.as_deref(), Some("trackID=0"));
}

#[test]
fn sprop_is_found_even_as_the_first_fmtp_parameter() {
    let sdp = parse(
        "m=video 0 RTP/AVP 96\r\n\
         a=fmtp:96 sprop-parameter-sets=Z0IAKeKQCgC3YC3AWA==,aM48gA==\r\n",
    )
    .unwrap();
    let v = sdp.video().unwrap();
    assert_eq!(v.sps.as_ref().unwrap()[0] & 0x1F, 7);
    assert_eq!(v.pps.as_ref().unwrap()[0] & 0x1F, 8);
}

#[test]
fn control_urls_resolve() {
    let base = "rtsp://127.0.0.1:8554/test";
    assert_eq!(
        resolve_control(base, "trackID=0"),
        "rtsp://127.0.0.1:8554/test/trackID=0"
    );
    assert_eq!(resolve_control(base, "*"), base);
    assert_eq!(resolve_control(base, "rtsp://other/x"), "rtsp://other/x");
}

#[test]
fn control_urls_join_with_one_slash() {
    assert_eq!(resolve_control("rtsp://h/s//", "//t"), "rtsp://h/s/t");
    assert_eq!(resolve_control("rtsp://h/s", ""), "rtsp://h/s");
}

#[test]
fn no_media_line_is_a_protocol_error() {
    assert!(matches!(parse("v=0\r\na=control:*\r\n"), Err(Error::Protocol(_))));
    assert!(matches!(parse(""), Err(Error::Protocol(_))));
}

#[test]
fn sps_and_pps_decode_exactly() {
    let sdp = parse(MEDIAMTX_SDP).unwrap();
    let v = sdp.video().unwrap();
    assert_eq!(
        v.sps.clone().unwrap(),
        vec![0x67, 0x42, 0x00, 0x29, 0xE2, 0x90, 0x0A, 0x00, 0xB7, 0x60, 0x2D, 0xC0, 0x58]
    );
    assert_eq!(v.pps.clone().unwrap(), vec![0x68, 0xCE, 0x3C, 0x80]);
}

#[test]
fn base64_edge_cases() {
    assert_eq!(base64_decode("TWFu"), Some(b"Man".to_vec()));
    assert_eq!(base64_decode("TW E="), Some(b"Ma".to_vec()));
    assert_eq!(base64_decode("TQ==garbage!"), Some(b"M".to_vec()));
    assert_eq!(base64_decode(""), Some(vec![]));
    assert_eq!(base64_decode("T!"), None);
    assert_eq!(base64_decode("Zé"), None);
}

#[test]
fn media_sections_collect_their_attributes() {
    let text = "a=control:rtsp://h/s\n\
                m=audio 0 RTP/AVP 97 98\n\
                a=rtpmap:97 MPEG4-GENERIC/48000/2\n\
                a=control:trackID=1\n\
                m=video 0 RTP/AVP\n\
                a=rtpmap:96\n\
                a=fmtp:96 sprop-parameter-sets=!!,aM48gA==\n\
                junk line\n\
                m=video 1 RTP/AVP 300\r\r\n";
    let sdp = parse(text).unwrap();
    assert_eq!(sdp.session_control.as_deref(), Some("rtsp://h/s"));
    assert_eq!(sdp.media.len(), 3);
    let audio = &sdp.media[0];
    assert_eq!(audio.kind, "audio");
    assert_eq!(audio.payload_type, 97);
    assert_eq!(audio.encoding.as_deref(), Some("MPEG4-GENERIC"));
    assert_eq!(audio.clock_rate, Some(48_000));
    assert_eq!(audio.control.as_deref(), Some("trackID=1"));
    let video = sdp.video().unwrap();
    assert_eq!(video.payload_type, 0);
    assert_eq!(video.encoding, None);
    assert_eq!(video.sps, None);
    assert_eq!(video.pps, Some(vec![0x68, 0xCE, 0x3C, 0x80]));
    // "300" does not fit in a u8, so the payload type is 0.
    assert_eq!(sdp.media[2].payload_type, 0);
    assert_eq!(sdp.media[2].kind, "video");
}

fn encode(b: &[u8], pad: bool) -> String {
    const A: &[u8] = b"ABCDEFGHIJKLMNOPQRSTUVWXYZabcdefghijklmnopqrstuvwxyz0123456789+/";
    let mut s = String::new();
    for c in b.chunks(3) {
        let n = c.len();
        let v = (c[0] as u32) << 16 | (*c.get(1).unwrap_or(&0) as u32) << 8 | *c.get(2).unwrap_or(&0) as u32;
        for k in 0..=n {
            s.push(A[((v >> (18 - 6 * k)) & 63) as usize] as char);
        }
        if pad {
            for _ in n..3 {
                s.push('=');
            }
        }
    }
    s
}

#[test]
fn base64_round_trip_of_encoded_bytes() {
    // Law: decoding reads back the standard encoding, padded or not.
    for len in 0..40usize {
        let b: Vec<u8> = (0..len).map(|i| (i * 37 + 250) as u8).collect();
        assert_eq!(base64_decode(&encode(&b, true)), Some(b.clone()));
        assert_eq!(base64_decode(&encode(&b, false)), Some(b));
    }
}

#[test]
fn base64_refuses_exactly_a_foreign_character_before_the_first_equals() {
    // Law: refused iff some character before the first '=' is neither whitespace nor
    // in the alphabet.
    assert_eq!(base64_decode("QU\t\nJD"), Some(b"ABC".to_vec()));
    assert_eq!(base64_decode("QUJD=*"), Some(b"ABC".to_vec()));
    assert_eq!(base64_decode("QU*JD"), None);
    assert_eq!(base64_decode("-"), None);
}
