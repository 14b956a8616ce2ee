# rustsp

An RTSP client library, verified with Verus: Verus proves that the functions in
`src/` meet their contracts. The few calls into std that Verus does not specify
(building `std::io::Error` values, `std::str::from_utf8`,
`String::from_utf8_lossy`, `{:?}` quoting) sit in small trusted functions; the
two that build I/O errors promise nothing beyond their type.

- `rtsp`: the session state machine (CSeq, Session id, lifecycle), request building
  and response parsing
- `sdp`: SDP parsing (media sections, control URLs, H.264 parameter sets)
- `transport`: TCP interleaved framing
- `rtp`: the RTP fixed header and H.264 depacketization (single NAL, STAP-A, FU-A)
- `media`: what one interleaved frame contributes to the video
- `cursor`, `span`, `text`, `bytes`: the byte and text primitives the parsers share

`app/` is the command-line client around the library: it owns the socket, the output
file and the environment, and asks the library for every protocol decision.
