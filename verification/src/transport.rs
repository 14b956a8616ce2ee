//! TCP interleaved framing (RFC 2326 section 10.12).
//!
//! After PLAY, media arrives on the RTSP connection behind a 4 byte header:
//!
//! ```text
//! +---------+---------+-----------------+---------------------------+
//! | '$'0x24 | channel | length (u16 BE) | payload (length bytes)    |
//! +---------+---------+-----------------+---------------------------+
//! ```
//!
//! SETUP asked for interleaved=0-1: channel 0 carries RTP, channel 1 RTCP.

use vstd::prelude::*;

use crate::bytes::{be16, read_be16};
use crate::cursor::ByteCursor;
use crate::error::{Error, Failure, Result, protocol_error};
use crate::text::{hex_prefixed, push_hex};

verus! {

/// The first byte of every interleaved frame: '$'.
pub const MAGIC: u8 = 0x24;

/// The negotiated RTP channel.
pub const CHANNEL_RTP: u8 = 0;

/// The negotiated RTCP channel.
pub const CHANNEL_RTCP: u8 = 1;

#[derive(Debug, PartialEq, Eq)]
pub struct Frame {
    pub channel: u8,
    pub payload: Vec<u8>,
}

/// The message with which a frame whose first byte is `b` (not '$') is refused.
pub open spec fn bad_magic_error(b: u8) -> Seq<char> {
    "expected '$' at the start of an interleaved frame, got "@ + hex_prefixed(b as nat)
}

/// Reading one frame from `data` at `pos`: the channel and payload, or the failure,
/// and where the reading stopped.
pub open spec fn frame_at(data: Seq<u8>, pos: int) -> (std::result::Result<(u8, Seq<u8>), Failure>, int) {
    if pos + 4 > data.len() {
        (Err(Failure::Io), data.len() as int)
    } else if data[pos] != MAGIC {
        (Err(Failure::Protocol(bad_magic_error(data[pos]))), pos + 4)
    } else {
        let n = be16(data[pos + 2], data[pos + 3]) as int;
        if pos + 4 + n > data.len() {
            (Err(Failure::Io), data.len() as int)
        } else {
            (Ok((data[pos + 1], data.subrange(pos + 4, pos + 4 + n))), pos + 4 + n)
        }
    }
}

/// Reads a frame header: the channel and the payload length. It fails when the first
/// byte is not '$', which means that an RTSP message arrived instead.
pub fn frame_header(header: &[u8]) -> (r: Result<(u8, usize)>)
    requires
        header@.len() == 4,
    ensures
        header@[0] == MAGIC ==> r == Ok::<(u8, usize), Error>(
            (header@[1], be16(header@[2], header@[3]) as usize),
        ),
        header@[0] != MAGIC ==> (r matches Err(Error::Protocol(m)) && m@ == bad_magic_error(
            header@[0],
        )),
{
    if header[0] != MAGIC {
        let mut msg = "expected '$' at the start of an interleaved frame, got ".to_owned();
        push_hex(&mut msg, header[0] as u64);
        return Err(protocol_error(msg));
    }
    let channel = header[1];
    let payload_length = read_be16(header, 2) as usize;
    Ok((channel, payload_length))
}

/// Reads exactly one interleaved frame, whatever its channel: the header, then exactly
/// as many payload bytes as it announces, and nothing more.
pub fn read_frame(reader: &mut ByteCursor) -> (r: Result<Frame>)
    ensures
        final(reader)@.data == old(reader)@.data,
        final(reader)@.pos == frame_at(old(reader)@.data, old(reader)@.pos as int).1,
        match frame_at(old(reader)@.data, old(reader)@.pos as int).0 {
            Ok((channel, payload)) => (r matches Ok(f) && f.channel == channel && f.payload@
                == payload),
            Err(Failure::Io) => r matches Err(Error::Io(_)),
            Err(Failure::Protocol(m)) => (r matches Err(Error::Protocol(s)) && s@ == m),
        },
{
    let header = match reader.read_exact(4) {
        Ok(h) => h,
        Err(e) => return Err(e),
    };
    assert(header@.len() == 4);
    let (channel, payload_length) = match frame_header(header.as_slice()) {
        Ok(v) => v,
        Err(e) => return Err(e),
    };
    let payload = match reader.read_exact(payload_length) {
        Ok(p) => p,
        Err(e) => return Err(e),
    };
    Ok(Frame { channel, payload })
}

/// The bytes of an interleaved frame: '$', the channel, the payload length as a big
/// endian u16, and the payload.
pub open spec fn frame_bytes(channel: u8, payload: Seq<u8>) -> Seq<u8> {
    seq![MAGIC, channel, (payload.len() / 256) as u8, (payload.len() % 256) as u8] + payload
}

/// Frames do not bleed into each other: a frame (with a payload shorter than 65536
/// bytes) that starts at `pos` reads back as its channel and payload, whatever comes
/// before or after it, and reading stops right after its payload, where the next
/// frame starts.
pub proof fn lemma_frame_reads_back(prefix: Seq<u8>, channel: u8, payload: Seq<u8>, rest: Seq<u8>)
    requires
        payload.len() < 65536,
    ensures
        ({
            let data = prefix + frame_bytes(channel, payload) + rest;
            frame_at(data, prefix.len() as int) == (
                Ok::<(u8, Seq<u8>), Failure>((channel, payload)),
                (prefix.len() + 4 + payload.len()) as int,
            )
        }),
{
    let data = prefix + frame_bytes(channel, payload) + rest;
    let i = prefix.len() as int;
    assert(data[i] == MAGIC);
    assert(data[i + 1] == channel);
    assert(data[i + 2] == (payload.len() / 256) as u8);
    assert(data[i + 3] == (payload.len() % 256) as u8);
    assert(be16(data[i + 2], data[i + 3]) as int == payload.len());
    assert(data.subrange(i + 4, i + 4 + payload.len()) =~= payload);
}

} // verus!
