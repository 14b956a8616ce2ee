//! RTP: the fixed header (RFC 3550) and H.264 depacketization (RFC 6184).

pub mod h264;
pub mod packet;
