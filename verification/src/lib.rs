//! An RTSP client library: request framing, response parsing, SDP parsing,
//! TCP interleaved framing, RTP header parsing and H.264 depacketization,
//! each verified against a contract.

pub mod bytes;
pub mod cursor;
pub mod error;
pub mod media;
pub mod rtp;
pub mod rtsp;
pub mod sdp;
pub mod span;
pub mod text;
pub mod transport;
