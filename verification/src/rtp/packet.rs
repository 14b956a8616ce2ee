//! RTP header parsing (RFC 3550 section 5.1).
//!
//! ```text
//!  0                   1                   2                   3
//!  0 1 2 3 4 5 6 7 8 9 0 1 2 3 4 5 6 7 8 9 0 1 2 3 4 5 6 7 8 9 0 1
//! +-+-+-+-+-+-+-+-+-+-+-+-+-+-+-+-+-+-+-+-+-+-+-+-+-+-+-+-+-+-+-+-+
//! |V=2|P|X|  CC   |M|     PT      |       sequence number         |
//! +-+-+-+-+-+-+-+-+-+-+-+-+-+-+-+-+-+-+-+-+-+-+-+-+-+-+-+-+-+-+-+-+
//! |                           timestamp                           |
//! +-+-+-+-+-+-+-+-+-+-+-+-+-+-+-+-+-+-+-+-+-+-+-+-+-+-+-+-+-+-+-+-+
//! |                             SSRC                              |
//! +-+-+-+-+-+-+-+-+-+-+-+-+-+-+-+-+-+-+-+-+-+-+-+-+-+-+-+-+-+-+-+-+
//! ```
//!
//! The payload begins after the 12 byte fixed header, the CSRC list (4 bytes per
//! contributing source) and, when X is set, the extension header (4 bytes, then as
//! many 32 bit words as its length field says).

use vstd::prelude::*;

use crate::bytes::{append_from, be16, be32, read_be16, read_be32};
use crate::error::{Error, Result, protocol_error};
use crate::text::{decimal, hex_prefixed, push_decimal, push_hex};

verus! {

#[derive(Debug, PartialEq, Eq)]
pub struct RtpPacket {
    pub marker: bool,
    pub payload_type: u8,
    pub sequence_number: u16,
    pub timestamp: u32,
    pub ssrc: u32,
    pub payload: Vec<u8>,
}

/// V: the two highest bits of byte 0.
pub open spec fn version_of(b0: u8) -> u8 {
    (b0 >> 6) & 0x3
}

/// X: bit 4 of byte 0.
pub open spec fn has_extension(b0: u8) -> bool {
    (b0 >> 4) & 0x1 == 1
}

/// CC: the four lowest bits of byte 0.
pub open spec fn csrc_count(b0: u8) -> u8 {
    b0 & 0xf
}

/// M: the highest bit of byte 1.
pub open spec fn marker_of(b1: u8) -> bool {
    (b1 >> 7) & 0x1 != 0
}

/// PT: the seven lowest bits of byte 1.
pub open spec fn payload_type_of(b1: u8) -> u8 {
    b1 & 0x7f
}

/// The length of the fixed header and the CSRC list.
pub open spec fn header_len(bytes: Seq<u8>) -> int {
    12 + 4 * csrc_count(bytes[0])
}

/// Where the payload starts: after the header, and after the extension header when X is set.
pub open spec fn payload_offset(bytes: Seq<u8>) -> int {
    let h = header_len(bytes);
    if has_extension(bytes[0]) {
        h + 4 + 4 * be16(bytes[h + 2], bytes[h + 3])
    } else {
        h
    }
}

/// The bytes form an RTP packet that `parse` accepts: version 2, and long enough for
/// everything the header announces.
pub open spec fn is_valid_packet(bytes: Seq<u8>) -> bool {
    &&& bytes.len() > 0
    &&& version_of(bytes[0]) == 2
    &&& bytes.len() >= header_len(bytes)
    &&& has_extension(bytes[0]) ==> bytes.len() >= header_len(bytes) + 4
    &&& bytes.len() >= payload_offset(bytes)
}

/// The message with which `parse` refuses `bytes`: the first check that fails, with
/// the sizes in hexadecimal or decimal.
pub open spec fn packet_error(bytes: Seq<u8>) -> Seq<char> {
    let n = bytes.len();
    if n == 0 {
        "empty bytes are given"@
    } else if version_of(bytes[0]) != 2 {
        "expected 'version 2' on RTP packet, got "@ + hex_prefixed(version_of(bytes[0]) as nat)
    } else if n < header_len(bytes) {
        "invalid packet data given, it needs "@ + hex_prefixed(header_len(bytes) as nat)
            + " bytes minimun but got "@ + hex_prefixed(n)
    } else if has_extension(bytes[0]) && n < header_len(bytes) + 4 {
        "extension header needs 4 bytes at offset "@ + decimal(header_len(bytes) as nat)
            + ", but the packet has "@ + decimal(n) + " bytes"@
    } else {
        "to get payload from the given bytes, need more than "@ + decimal(
            payload_offset(bytes) as nat,
        ) + " bytes, but the packet has only "@ + decimal(n) + " bytes"@
    }
}

/// Parses one RTP packet. It fails on an empty buffer, a version other than 2, or a
/// buffer shorter than the header describes.
pub fn parse(bytes: &[u8]) -> (r: Result<RtpPacket>)
    ensures
        r is Ok <==> is_valid_packet(bytes@),
        r matches Err(e) ==> (e matches Error::Protocol(m) && m@ == packet_error(bytes@)),
        r matches Ok(p) ==> {
            &&& p.marker == marker_of(bytes@[1])
            &&& p.payload_type == payload_type_of(bytes@[1])
            &&& p.sequence_number == be16(bytes@[2], bytes@[3])
            &&& p.timestamp == be32(bytes@[4], bytes@[5], bytes@[6], bytes@[7])
            &&& p.ssrc == be32(bytes@[8], bytes@[9], bytes@[10], bytes@[11])
            &&& p.payload@ == bytes@.subrange(payload_offset(bytes@), bytes@.len() as int)
        },
{
    if bytes.len() == 0 {
        return Err(protocol_error("empty bytes are given".to_owned()));
    }
    let version = (bytes[0] >> 6) & 0b11;
    if version != 0b10 {
        let mut msg = "expected 'version 2' on RTP packet, got ".to_owned();
        push_hex(&mut msg, version as u64);
        return Err(protocol_error(msg));
    }
    let extension = (bytes[0] >> 4) & 0b1;
    let b0: u8 = bytes[0];
    let cc: u8 = b0 & 0b0000_1111;
    assert(b0 & 0xf <= 15) by (bit_vector);

    let min_packet_bytes = 12 + cc as usize * 4;
    if bytes.len() < min_packet_bytes {
        let mut msg = "invalid packet data given, it needs ".to_owned();
        push_hex(&mut msg, min_packet_bytes as u64);
        msg.append(" bytes minimun but got ");
        push_hex(&mut msg, bytes.len() as u64);
        return Err(protocol_error(msg));
    }

    let marker = ((bytes[1] >> 7) & 0b1) != 0;
    let payload_type = bytes[1] & 0b0111_1111;
    let sequence_number = read_be16(bytes, 2);
    let timestamp = read_be32(bytes, 4);
    let ssrc = read_be32(bytes, 8);

    let mut offset = 12 + cc as usize * 4;
    if extension == 0b1 {
        if bytes.len() < offset + 4 {
            let mut msg = "extension header needs 4 bytes at offset ".to_owned();
            push_decimal(&mut msg, offset as u64);
            msg.append(", but the packet has ");
            push_decimal(&mut msg, bytes.len() as u64);
            msg.append(" bytes");
            return Err(protocol_error(msg));
        }
        let extension_length = read_be16(bytes, offset + 2);
        offset += 4 + extension_length as usize * 4;
    }

    if bytes.len() < offset {
        let mut msg = "to get payload from the given bytes, need more than ".to_owned();
        push_decimal(&mut msg, offset as u64);
        msg.append(" bytes, but the packet has only ");
        push_decimal(&mut msg, bytes.len() as u64);
        msg.append(" bytes");
        return Err(protocol_error(msg));
    }
    let mut payload: Vec<u8> = Vec::new();
    append_from(&mut payload, bytes, offset);
    assert(payload@ =~= bytes@.subrange(payload_offset(bytes@), bytes@.len() as int));

    Ok(RtpPacket { marker, payload_type, sequence_number, timestamp, ssrc, payload })
}

} // verus!
