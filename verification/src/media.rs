//! The media path after PLAY: what one interleaved frame contributes to the video.

use vstd::prelude::*;

use crate::bytes::append_from;
use crate::error::{Error, Result};
use crate::rtp::h264::{push_error, push_step, units_view, Depacketizer};
use crate::rtp::packet::{is_valid_packet, packet_error, parse, payload_offset, RtpPacket};
use crate::transport::{CHANNEL_RTP, Frame};

verus! {

/// Takes one interleaved frame. A frame on another channel than RTP (RTCP) is skipped
/// (`None`). An RTP frame is parsed and its payload pushed into the depacketizer: the
/// packet and the complete NAL units it produced. A malformed packet is a Protocol
/// error and leaves the depacketizer as it was.
pub fn depacketize_frame(d: &mut Depacketizer, frame: &Frame) -> (r: Result<
    Option<(RtpPacket, Vec<Vec<u8>>)>,
>)
    ensures
        frame.channel != CHANNEL_RTP ==> (r matches Ok(None) && final(d)@ == old(d)@),
        frame.channel == CHANNEL_RTP && !is_valid_packet(frame.payload@) ==> (r matches Err(
            Error::Protocol(m),
        ) && m@ == packet_error(frame.payload@) && final(d)@ == old(d)@),
        frame.channel == CHANNEL_RTP && is_valid_packet(frame.payload@) ==> ({
            let bytes = frame.payload@;
            let payload = bytes.subrange(payload_offset(bytes), bytes.len() as int);
            let seq_no = crate::bytes::be16(bytes[2], bytes[3]);
            let step = push_step(old(d)@, seq_no, payload);
            &&& final(d)@ == step.0
            &&& step.1 is Some ==> (r matches Ok(Some((p, units))) && p.sequence_number == seq_no
                && p.payload@ == payload && units_view(units@) == step.1->0)
            &&& step.1 is None ==> (r matches Err(Error::Protocol(m)) && m@ == push_error(payload))
        }),
{
    if frame.channel != CHANNEL_RTP {
        return Ok(None);
    }
    let packet = match parse(frame.payload.as_slice()) {
        Ok(p) => p,
        Err(e) => return Err(e),
    };
    match d.push(packet.sequence_number, packet.payload.as_slice()) {
        Ok(units) => Ok(Some((packet, units))),
        Err(e) => Err(e),
    }
}

/// A NAL unit as an Annex B byte stream carries it: the start code 00 00 00 01, then
/// the unit.
pub open spec fn annex_b(nal: Seq<u8>) -> Seq<u8> {
    seq![0u8, 0u8, 0u8, 1u8] + nal
}

/// The start of an Annex B file: the SPS, then the PPS, each behind a start code, so
/// that a decoder can start from byte zero; a parameter set that is absent is left out.
pub open spec fn parameter_sets(sps: Option<Seq<u8>>, pps: Option<Seq<u8>>) -> Seq<u8> {
    let a = match sps {
        Some(s) => annex_b(s),
        None => Seq::empty(),
    };
    let b = match pps {
        Some(p) => annex_b(p),
        None => Seq::empty(),
    };
    a + b
}

fn push_annex_b(out: &mut Vec<u8>, nal: &[u8])
    ensures
        final(out)@ == old(out)@ + annex_b(nal@),
{
    out.push(0);
    out.push(0);
    out.push(0);
    out.push(1);
    append_from(out, nal, 0);
    assert(nal@.subrange(0, nal@.len() as int) =~= nal@);
    assert(final(out)@ =~= old(out)@ + annex_b(nal@));
}

/// The bytes that carry one NAL unit in an Annex B stream.
pub fn annex_b_unit(nal: &[u8]) -> (r: Vec<u8>)
    ensures
        r@ == annex_b(nal@),
{
    let mut out: Vec<u8> = Vec::new();
    push_annex_b(&mut out, nal);
    assert(out@ =~= annex_b(nal@));
    out
}

/// The bytes that open an Annex B stream: the parameter sets from the SDP, if any.
pub fn parameter_set_units(sps: Option<&[u8]>, pps: Option<&[u8]>) -> (r: Vec<u8>)
    ensures
        r@ == parameter_sets(
            match sps {
                Some(s) => Some(s@),
                None => None,
            },
            match pps {
                Some(p) => Some(p@),
                None => None,
            },
        ),
{
    let mut out: Vec<u8> = Vec::new();
    match sps {
        Some(s) => push_annex_b(&mut out, s),
        None => {},
    }
    match pps {
        Some(p) => push_annex_b(&mut out, p),
        None => {},
    }
    assert(out@ =~= parameter_sets(
        match sps {
            Some(s) => Some(s@),
            None => None,
        },
        match pps {
            Some(p) => Some(p@),
            None => None,
        },
    ));
    out
}

} // verus!
