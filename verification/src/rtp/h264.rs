//! H.264 depacketization (RFC 6184 section 5).
//!
//! One RTP payload holds a complete NAL unit, several NAL units, or one piece of a
//! large NAL unit. The lowest 5 bits of the first payload byte say which:
//!
//! - 1..=23: a single NAL unit; the payload is the NAL unit itself
//! - 24 (STAP-A): several NAL units, each a u16 big endian length and the unit
//! - 28 (FU-A): one fragment of a NAL unit that spans several packets
//!
//! Every other type is refused. Two situations never produce a damaged NAL unit:
//! a middle or end fragment without a start fragment is dropped, and a missing
//! sequence number during reassembly throws the incomplete unit away.
//! NAL units are returned without an Annex B start code.

use vstd::prelude::*;

use crate::bytes::{append_from, be16, copy_range, read_be16};
use crate::error::{Error, Result, protocol_error};
use crate::text::{decimal, push_decimal};

verus! {

pub const START_CODE: [u8; 4] = [0x00, 0x00, 0x00, 0x01];

pub const NAL_STAP_A: u8 = 24;

pub const NAL_FU_A: u8 = 28;

/// What a depacketizer remembers between packets: the NAL unit being rebuilt from
/// FU-A fragments, if any, and the sequence number of the last accepted fragment.
pub struct DepacketizerState {
    pub partial: Option<Seq<u8>>,
    pub last_seq: Option<u16>,
}

/// Reassembles NAL units that are spread over several RTP packets.
#[derive(Debug)]
pub struct Depacketizer {
    partial: Option<Vec<u8>>,
    last_seq: Option<u16>,
}

/// The contents of a list of NAL units.
pub open spec fn units_view(v: Seq<Vec<u8>>) -> Seq<Seq<u8>> {
    v.map_values(|u: Vec<u8>| u@)
}

/// The state in which nothing is being reassembled.
pub open spec fn idle() -> DepacketizerState {
    DepacketizerState { partial: None, last_seq: None }
}

/// The NAL unit type: the lowest 5 bits of a NAL or FU indicator byte.
pub open spec fn nal_type(b: u8) -> u8 {
    b & 0x1f
}

/// The S bit of an FU header.
pub open spec fn fu_start(h: u8) -> bool {
    h & 0x80 != 0
}

/// The E bit of an FU header.
pub open spec fn fu_end(h: u8) -> bool {
    h & 0x40 != 0
}

/// The header of the reassembled NAL unit: F and NRI from the FU indicator, the type
/// from the FU header.
pub open spec fn fu_nal_header(indicator: u8, header: u8) -> u8 {
    (indicator & 0xe0) | (header & 0x1f)
}

/// The sequence number that follows `s`, wrapping from 65535 to 0.
pub open spec fn next_seq(s: u16) -> u16 {
    if s == 65535 {
        0
    } else {
        (s + 1) as u16
    }
}

/// A non-start fragment with sequence number `seq_no` continues the NAL unit under
/// reassembly: there is one, and `seq_no` directly follows the last accepted fragment.
pub open spec fn continues(st: DepacketizerState, seq_no: u16) -> bool {
    st.partial is Some && match st.last_seq {
        Some(last) => next_seq(last) == seq_no,
        None => false,
    }
}

/// The NAL units of a STAP-A payload from offset `i` on: each is a big endian u16
/// length and that many bytes. `None` when a length runs past the end. A single
/// byte left at the end is ignored.
pub open spec fn stap_a_units(p: Seq<u8>, i: int) -> Option<Seq<Seq<u8>>>
    decreases p.len() - i,
{
    if 0 <= i && i + 1 < p.len() {
        let len = be16(p[i], p[i + 1]) as int;
        let j = i + 2;
        if j + len <= p.len() {
            match stap_a_units(p, j + len) {
                Some(rest) => Some(seq![p.subrange(j, j + len)] + rest),
                None => None,
            }
        } else {
            None
        }
    } else {
        Some(Seq::empty())
    }
}

/// One call of `push`: the next state, and the NAL units produced (`None` for an error).
pub open spec fn push_step(st: DepacketizerState, seq_no: u16, p: Seq<u8>) -> (
    DepacketizerState,
    Option<Seq<Seq<u8>>>,
) {
    if p.len() == 0 {
        (st, None)
    } else {
        let t = nal_type(p[0]);
        if 1 <= t <= 23 {
            (idle(), Some(seq![p]))
        } else if t == 24 {
            (idle(), stap_a_units(p, 1))
        } else if t == 28 {
            if p.len() < 2 {
                (st, None)
            } else {
                let body = p.subrange(2, p.len() as int);
                if fu_start(p[1]) {
                    (
                        DepacketizerState {
                            partial: Some(seq![fu_nal_header(p[0], p[1])] + body),
                            last_seq: Some(seq_no),
                        },
                        Some(Seq::empty()),
                    )
                } else if !continues(st, seq_no) {
                    (idle(), Some(Seq::empty()))
                } else if fu_end(p[1]) {
                    (idle(), Some(seq![st.partial->0 + body]))
                } else {
                    (
                        DepacketizerState {
                            partial: Some(st.partial->0 + body),
                            last_seq: Some(seq_no),
                        },
                        Some(Seq::empty()),
                    )
                }
            }
        } else {
            (st, None)
        }
    }
}

/// The message with which `push` refuses a payload.
pub open spec fn push_error(p: Seq<u8>) -> Seq<char> {
    if p.len() == 0 {
        "empty payload is given"@
    } else if nal_type(p[0]) == 24 {
        "insufficient payload is given for STAP-A type payload"@
    } else if nal_type(p[0]) == 28 {
        "FU-A payload is too short"@
    } else {
        "unsupported NAL type "@ + decimal(nal_type(p[0]) as nat)
    }
}

impl View for Depacketizer {
    type V = DepacketizerState;

    closed spec fn view(&self) -> DepacketizerState {
        DepacketizerState {
            partial: match self.partial {
                Some(v) => Some(v@),
                None => None,
            },
            last_seq: self.last_seq,
        }
    }
}

impl Default for Depacketizer {
    fn default() -> (d: Self)
        ensures
            d@ == idle(),
    {
        Depacketizer { partial: None, last_seq: None }
    }
}

impl Depacketizer {
    pub fn new() -> (d: Self)
        ensures
            d@ == idle(),
    {
        Depacketizer { partial: None, last_seq: None }
    }

    /// Passes in one RTP payload. Returns every complete NAL unit that it produced:
    /// none when only a fragment arrived, one for a single NAL unit or a finished
    /// FU-A, several for a STAP-A.
    pub fn push(&mut self, sequence_number: u16, payload: &[u8]) -> (r: Result<Vec<Vec<u8>>>)
        ensures
            final(self)@ == push_step(old(self)@, sequence_number, payload@).0,
            r is Ok <==> push_step(old(self)@, sequence_number, payload@).1 is Some,
            r matches Ok(units) ==> units_view(units@) == push_step(
                old(self)@,
                sequence_number,
                payload@,
            ).1->0,
            r matches Err(e) ==> (e matches Error::Protocol(m) && m@ == push_error(payload@)),
    {
        if payload.len() == 0 {
            return Err(protocol_error("empty payload is given".to_owned()));
        }
        let first: u8 = payload[0];
        let nal_type: u8 = first & 0b0001_1111;
        if 1 <= nal_type && nal_type <= 23 {
            self.last_seq = None;
            self.partial = None;
            let unit = copy_range(payload, 0, payload.len());
            let mut out: Vec<Vec<u8>> = Vec::new();
            out.push(unit);
            assert(payload@.subrange(0, payload@.len() as int) =~= payload@);
            assert(units_view(out@) =~= seq![payload@]);
            Ok(out)
        } else if nal_type == NAL_STAP_A {
            let ghost step = push_step(self@, sequence_number, payload@);
            self.last_seq = None;
            self.partial = None;
            let mut result: Vec<Vec<u8>> = Vec::new();
            let mut index: usize = 1;
            assert(units_view(result@) =~= Seq::<Seq<u8>>::empty());
            while index < payload.len() - 1
                invariant
                    1 <= index <= payload@.len(),
                    payload@.len() > 0,
                    payload@[0] & 0x1f == 24,
                    step == (idle(), stap_a_units(payload@, 1)),
                    step == push_step(old(self)@, sequence_number, payload@),
                    self@ == idle(),
                    stap_a_units(payload@, 1) == match stap_a_units(payload@, index as int) {
                        Some(rest) => Some(units_view(result@) + rest),
                        None => None,
                    },
                decreases payload@.len() - index,
            {
                let ghost at = index as int;
                let length = read_be16(payload, index) as usize;
                index += 2;
                if length <= payload.len() - index {
                    let unit = copy_range(payload, index, index + length);
                    let ghost before = units_view(result@);
                    result.push(unit);
                    assert(units_view(result@) =~= before.push(unit@));
                    index += length;
                    assert(before.push(unit@) + stap_a_units(payload@, index as int)->0
                        =~= before + (seq![unit@] + stap_a_units(payload@, index as int)->0));
                } else {
                    assert(stap_a_units(payload@, at) is None);
                    return Err(
                        protocol_error(
                            "insufficient payload is given for STAP-A type payload".to_owned(),
                        ),
                    );
                }
            }
            assert(units_view(result@) + Seq::<Seq<u8>>::empty() =~= units_view(result@));
            Ok(result)
        } else if nal_type == NAL_FU_A {
            if payload.len() < 2 {
                return Err(protocol_error("FU-A payload is too short".to_owned()));
            }
            let fu_indicator = payload[0];
            let fu_header = payload[1];
            let start = fu_header & 0x80 != 0;
            let end = fu_header & 0x40 != 0;
            let origin_nal_type = fu_header & 0x1F;
            let origin_nal_header = (fu_indicator & 0xE0) | origin_nal_type;

            if start {
                let mut nal: Vec<u8> = Vec::new();
                nal.push(origin_nal_header);
                append_from(&mut nal, payload, 2);
                self.last_seq = Some(sequence_number);
                self.partial = Some(nal);
                return Ok(Vec::new());
            }
            let is_valid = self.partial.is_some() && match self.last_seq {
                Some(last) => last.wrapping_add(1) == sequence_number,
                None => false,
            };
            if !is_valid {
                self.partial = None;
                self.last_seq = None;
                return Ok(Vec::new());
            }
            let mut current: Option<Vec<u8>> = None;
            std::mem::swap(&mut current, &mut self.partial);
            let mut nal = current.unwrap();
            append_from(&mut nal, payload, 2);
            if end {
                self.last_seq = None;
                let mut out: Vec<Vec<u8>> = Vec::new();
                out.push(nal);
                assert(units_view(out@) =~= seq![nal@]);
                Ok(out)
            } else {
                self.last_seq = Some(sequence_number);
                self.partial = Some(nal);
                Ok(Vec::new())
            }
        } else {
            let mut msg = "unsupported NAL type ".to_owned();
            push_decimal(&mut msg, nal_type as u64);
            Err(protocol_error(msg))
        }
    }
}

/// The STAP-A aggregation of `units`: each unit preceded by its length as a big endian u16.
pub open spec fn stap_a_pack(units: Seq<Seq<u8>>) -> Seq<u8>
    decreases units.len(),
{
    if units.len() == 0 {
        Seq::empty()
    } else {
        let u = units[0];
        seq![(u.len() / 256) as u8, (u.len() % 256) as u8] + u + stap_a_pack(units.drop_first())
    }
}

/// The concatenation of `parts`, in order.
pub open spec fn concat(parts: Seq<Seq<u8>>) -> Seq<u8>
    decreases parts.len(),
{
    if parts.len() == 0 {
        Seq::empty()
    } else {
        parts[0] + concat(parts.drop_first())
    }
}

/// The FU-A fragment that carries `body` of a NAL unit whose header byte is `nal_header`.
pub open spec fn fu_a_fragment(nal_header: u8, body: Seq<u8>, start: bool, end: bool) -> Seq<u8> {
    let indicator = (nal_header & 0xe0) | 28u8;
    let s: u8 = if start { 0x80 } else { 0 };
    let e: u8 = if end { 0x40 } else { 0 };
    seq![indicator, s | e | (nal_header & 0x1f)] + body
}

/// The FU-A fragments of the NAL unit `seq![nal_header] + concat(bodies)`: the first marked
/// as start, the last as end.
pub open spec fn fu_a_fragments(nal_header: u8, bodies: Seq<Seq<u8>>) -> Seq<Seq<u8>> {
    Seq::new(
        bodies.len(),
        |i: int| fu_a_fragment(nal_header, bodies[i], i == 0, i == bodies.len() - 1),
    )
}

/// Pushes `payloads` one after another, with consecutive sequence numbers from `seq_no`
/// on: the final state and every NAL unit produced, in order (a refused payload
/// produces none).
pub open spec fn push_all(st: DepacketizerState, seq_no: u16, payloads: Seq<Seq<u8>>) -> (
    DepacketizerState,
    Seq<Seq<u8>>,
)
    decreases payloads.len(),
{
    if payloads.len() == 0 {
        (st, Seq::empty())
    } else {
        let (next, out) = push_step(st, seq_no, payloads[0]);
        let (last, rest) = push_all(next, next_seq(seq_no), payloads.drop_first());
        (
            last,
            match out {
                Some(units) => units + rest,
                None => rest,
            },
        )
    }
}

/// Every step keeps the two halves of the state together: a NAL unit is under
/// reassembly exactly when a last sequence number is remembered.
pub proof fn lemma_state_halves_agree(st: DepacketizerState, seq_no: u16, p: Seq<u8>)
    requires
        (st.partial is Some) == (st.last_seq is Some),
    ensures
        ({
            let next = push_step(st, seq_no, p).0;
            (next.partial is Some) == (next.last_seq is Some)
        }),
{
}

/// A single NAL unit passes through unchanged and clears any partial reassembly.
pub proof fn lemma_single_nal_passes_through(st: DepacketizerState, seq_no: u16, p: Seq<u8>)
    requires
        p.len() > 0,
        1 <= nal_type(p[0]) <= 23,
    ensures
        push_step(st, seq_no, p) == (idle(), Some(seq![p])),
{
}

/// A middle or end fragment that does not directly follow the last accepted fragment
/// (or arrives with no reassembly under way) produces nothing and throws the partial
/// NAL unit away.
pub proof fn lemma_gap_discards(st: DepacketizerState, seq_no: u16, p: Seq<u8>)
    requires
        p.len() >= 2,
        nal_type(p[0]) == 28,
        !fu_start(p[1]),
        !continues(st, seq_no),
    ensures
        push_step(st, seq_no, p) == (idle(), Some(Seq::<Seq<u8>>::empty())),
{
}

/// An FU-A middle or end fragment never yields a damaged NAL unit: it produces a unit
/// only when it directly follows the last accepted fragment of a reassembly under way,
/// and that unit is the reassembled prefix followed by the fragment's data.
pub proof fn lemma_fu_a_output_needs_continuation(st: DepacketizerState, seq_no: u16, p: Seq<u8>)
    requires
        p.len() >= 2,
        nal_type(p[0]) == 28,
        !fu_start(p[1]),
        push_step(st, seq_no, p).1 matches Some(units) && units.len() > 0,
    ensures
        continues(st, seq_no),
        fu_end(p[1]),
        push_step(st, seq_no, p) == (
            idle(),
            Some(seq![st.partial->0 + p.subrange(2, p.len() as int)]),
        ),
{
}

proof fn lemma_stap_a_units_of_pack(prefix: Seq<u8>, units: Seq<Seq<u8>>)
    requires
        forall|i: int| 0 <= i < units.len() ==> #[trigger] units[i].len() < 65536,
    ensures
        stap_a_units(prefix + stap_a_pack(units), prefix.len() as int) == Some(units),
    decreases units.len(),
{
    let p = prefix + stap_a_pack(units);
    let i = prefix.len() as int;
    if units.len() == 0 {
        assert(p =~= prefix);
        assert(units =~= Seq::<Seq<u8>>::empty());
    } else {
        let u = units[0];
        let hi = (u.len() / 256) as u8;
        let lo = (u.len() % 256) as u8;
        let rest = units.drop_first();
        assert forall|k: int| 0 <= k < rest.len() implies #[trigger] rest[k].len() < 65536 by {
            assert(rest[k] == units[k + 1]);
        }
        let prefix2 = prefix + seq![hi, lo] + u;
        assert(p =~= prefix2 + stap_a_pack(rest));
        assert(p[i] == hi);
        assert(p[i + 1] == lo);
        assert(be16(hi, lo) as int == u.len());
        assert(p.subrange(i + 2, i + 2 + u.len()) =~= u);
        lemma_stap_a_units_of_pack(prefix2, rest);
        assert(seq![u] + rest =~= units);
    }
}

/// STAP-A yields every packed NAL unit: a STAP-A payload built from NAL units shorter
/// than 65536 bytes gives back exactly those units, in order.
pub proof fn lemma_stap_a_round_trip(
    st: DepacketizerState,
    seq_no: u16,
    indicator: u8,
    units: Seq<Seq<u8>>,
)
    requires
        nal_type(indicator) == 24,
        forall|i: int| 0 <= i < units.len() ==> #[trigger] units[i].len() < 65536,
    ensures
        push_step(st, seq_no, seq![indicator] + stap_a_pack(units)) == (idle(), Some(units)),
{
    lemma_stap_a_units_of_pack(seq![indicator], units);
}

/// `s` advanced by `j` sequence numbers, wrapping from 65535 to 0.
pub open spec fn advance(s: u16, j: nat) -> u16
    decreases j,
{
    if j == 0 {
        s
    } else {
        next_seq(advance(s, (j - 1) as nat))
    }
}

proof fn lemma_fragment_fields(h: u8, start: bool, end: bool)
    ensures
        ({
            let indicator = (h & 0xe0) | 28u8;
            let s: u8 = if start { 0x80 } else { 0 };
            let e: u8 = if end { 0x40 } else { 0 };
            let header = s | e | (h & 0x1f);
            &&& nal_type(indicator) == 28
            &&& fu_start(header) == start
            &&& fu_end(header) == end
            &&& fu_nal_header(indicator, header) == h
        }),
{
    assert(((h & 0xe0) | 28u8) & 0x1f == 28u8) by (bit_vector);
    if start && end {
        assert((0x80u8 | 0x40u8 | (h & 0x1f)) & 0x80 != 0 && (0x80u8 | 0x40u8 | (h & 0x1f)) & 0x40
            != 0 && (((h & 0xe0) | 28u8) & 0xe0) | ((0x80u8 | 0x40u8 | (h & 0x1f)) & 0x1f) == h)
            by (bit_vector);
    } else if start {
        assert((0x80u8 | 0u8 | (h & 0x1f)) & 0x80 != 0 && (0x80u8 | 0u8 | (h & 0x1f)) & 0x40 == 0
            && (((h & 0xe0) | 28u8) & 0xe0) | ((0x80u8 | 0u8 | (h & 0x1f)) & 0x1f) == h)
            by (bit_vector);
    } else if end {
        assert((0u8 | 0x40u8 | (h & 0x1f)) & 0x80 == 0 && (0u8 | 0x40u8 | (h & 0x1f)) & 0x40 != 0
            && (((h & 0xe0) | 28u8) & 0xe0) | ((0u8 | 0x40u8 | (h & 0x1f)) & 0x1f) == h)
            by (bit_vector);
    } else {
        assert((0u8 | 0u8 | (h & 0x1f)) & 0x80 == 0 && (0u8 | 0u8 | (h & 0x1f)) & 0x40 == 0 && (((h
            & 0xe0) | 28u8) & 0xe0) | ((0u8 | 0u8 | (h & 0x1f)) & 0x1f) == h) by (bit_vector);
    }
}

proof fn lemma_concat_push(parts: Seq<Seq<u8>>, x: Seq<u8>)
    ensures
        concat(parts.push(x)) == concat(parts) + x,
    decreases parts.len(),
{
    if parts.len() == 0 {
        assert(parts.push(x).drop_first() =~= Seq::<Seq<u8>>::empty());
        assert(concat(Seq::<Seq<u8>>::empty()) =~= Seq::<u8>::empty());
        assert(parts.push(x)[0] == x);
        assert(concat(parts.push(x)) =~= x);
    } else {
        assert(parts.push(x).drop_first() =~= parts.drop_first().push(x));
        lemma_concat_push(parts.drop_first(), x);
        assert(concat(parts.push(x)) =~= concat(parts) + x);
    }
}

proof fn lemma_fu_a_tail(h: u8, bodies: Seq<Seq<u8>>, s: u16, j: int)
    requires
        1 <= j < bodies.len(),
    ensures
        push_all(
            DepacketizerState {
                partial: Some(seq![h] + concat(bodies.take(j))),
                last_seq: Some(advance(s, (j - 1) as nat)),
            },
            advance(s, j as nat),
            fu_a_fragments(h, bodies).skip(j),
        ) == (idle(), seq![seq![h] + concat(bodies)]),
    decreases bodies.len() - j,
{
    let n = bodies.len() as int;
    let frags = fu_a_fragments(h, bodies);
    let tail = frags.skip(j);
    let acc = seq![h] + concat(bodies.take(j));
    let st = DepacketizerState { partial: Some(acc), last_seq: Some(advance(s, (j - 1) as nat)) };
    let p = tail[0];
    assert(p == fu_a_fragment(h, bodies[j], false, j == n - 1));
    lemma_fragment_fields(h, false, j == n - 1);
    assert(p.subrange(2, p.len() as int) =~= bodies[j]);
    assert(next_seq(advance(s, (j - 1) as nat)) == advance(s, j as nat));
    assert(continues(st, advance(s, j as nat)));
    assert(bodies.take(j + 1) =~= bodies.take(j).push(bodies[j]));
    lemma_concat_push(bodies.take(j), bodies[j]);
    let acc2 = acc + bodies[j];
    assert(acc2 =~= seq![h] + concat(bodies.take(j + 1)));
    if j == n - 1 {
        assert(push_step(st, advance(s, j as nat), p) == (idle(), Some(seq![acc2])));
        assert(tail.drop_first() =~= Seq::<Seq<u8>>::empty());
        assert(push_all(idle(), next_seq(advance(s, j as nat)), tail.drop_first()) == (
            idle(),
            Seq::<Seq<u8>>::empty(),
        ));
        assert(bodies.take(j + 1) =~= bodies);
        assert(seq![acc2] + Seq::<Seq<u8>>::empty() =~= seq![seq![h] + concat(bodies)]);
    } else {
        let st2 = DepacketizerState { partial: Some(acc2), last_seq: Some(advance(s, j as nat)) };
        assert(push_step(st, advance(s, j as nat), p) == (st2, Some(Seq::<Seq<u8>>::empty())));
        assert(tail.drop_first() =~= frags.skip(j + 1));
        lemma_fu_a_tail(h, bodies, s, j + 1);
        assert(advance(s, (j + 1) as nat) == next_seq(advance(s, j as nat)));
        let rest = push_all(st2, advance(s, (j + 1) as nat), frags.skip(j + 1)).1;
        assert(Seq::<Seq<u8>>::empty() + rest =~= rest);
    }
}

/// FU-A reassembly: the fragments of a NAL unit (at least two), pushed with
/// consecutive sequence numbers (wrapping from 65535 to 0), give back the whole NAL
/// unit once, at the end fragment, whatever state the depacketizer was in before,
/// and leave nothing under reassembly.
pub proof fn lemma_fu_a_round_trip(st: DepacketizerState, s: u16, h: u8, bodies: Seq<Seq<u8>>)
    requires
        bodies.len() >= 2,
    ensures
        push_all(st, s, fu_a_fragments(h, bodies)) == (idle(), seq![seq![h] + concat(bodies)]),
{
    let frags = fu_a_fragments(h, bodies);
    let p = frags[0];
    assert(p == fu_a_fragment(h, bodies[0], true, false));
    lemma_fragment_fields(h, true, false);
    assert(p.subrange(2, p.len() as int) =~= bodies[0]);
    assert(bodies.take(1) =~= Seq::<Seq<u8>>::empty().push(bodies[0]));
    lemma_concat_push(Seq::<Seq<u8>>::empty(), bodies[0]);
    assert(concat(Seq::<Seq<u8>>::empty()) =~= Seq::<u8>::empty());
    let acc = seq![h] + bodies[0];
    assert(acc =~= seq![h] + concat(bodies.take(1)));
    let st1 = DepacketizerState { partial: Some(acc), last_seq: Some(s) };
    assert(push_step(st, s, p) == (st1, Some(Seq::<Seq<u8>>::empty())));
    assert(frags.drop_first() =~= frags.skip(1));
    assert(advance(s, 0) == s);
    assert(advance(s, 1) == next_seq(s));
    lemma_fu_a_tail(h, bodies, s, 1);
    let rest = push_all(st1, next_seq(s), frags.skip(1)).1;
    assert(Seq::<Seq<u8>>::empty() + rest =~= rest);
}

/// Pushes `ps[j..]` one after another, `ps[k]` with sequence number `seqs[k]`: the
/// final state and, for each push, what it returned (`None` for an error).
pub open spec fn push_each_from(
    st: DepacketizerState,
    seqs: Seq<u16>,
    ps: Seq<Seq<u8>>,
    j: int,
) -> (DepacketizerState, Seq<Option<Seq<Seq<u8>>>>)
    decreases ps.len() - j,
{
    if 0 <= j < ps.len() {
        let (next, out) = push_step(st, seqs[j], ps[j]);
        let (last, rest) = push_each_from(next, seqs, ps, j + 1);
        (last, seq![out] + rest)
    } else {
        (st, Seq::empty())
    }
}

/// The sequence number at index `k` directly follows the one before it.
pub open spec fn follows(seqs: Seq<u16>, k: int) -> bool {
    seqs[k] == next_seq(seqs[k - 1])
}

/// Each sequence number after index `a` directly follows the one before it.
pub open spec fn consecutive_from(seqs: Seq<u16>, a: int) -> bool {
    forall|k: int| a < k < seqs.len() ==> #[trigger] follows(seqs, k)
}

/// The data of FU-A fragments: each payload without its two header bytes.
pub open spec fn fragment_bodies(ps: Seq<Seq<u8>>) -> Seq<Seq<u8>> {
    Seq::new(ps.len(), |i: int| ps[i].subrange(2, ps[i].len() as int))
}

/// `ps[j..]` are FU-A middle fragments followed by one end fragment.
pub open spec fn middles_then_end(ps: Seq<Seq<u8>>, j: int) -> bool {
    &&& forall|i: int| j <= i < ps.len() ==> #[trigger] ps[i].len() >= 2 && nal_type(ps[i][0]) == 28
        && !fu_start(ps[i][1])
    &&& forall|i: int| j <= i < ps.len() - 1 ==> !fu_end(#[trigger] ps[i][1])
    &&& fu_end(ps[ps.len() - 1][1])
}

/// Every push returned no unit and no error.
pub open spec fn all_quiet(outs: Seq<Option<Seq<Seq<u8>>>>) -> bool {
    forall|k: int| 0 <= k < outs.len() ==> #[trigger] outs[k] == Some(Seq::<Seq<u8>>::empty())
}

proof fn lemma_idle_fragments(seqs: Seq<u16>, ps: Seq<Seq<u8>>, j: int)
    requires
        1 <= j <= ps.len(),
        middles_then_end(ps, 1),
    ensures
        push_each_from(idle(), seqs, ps, j).0 == idle(),
        push_each_from(idle(), seqs, ps, j).1.len() == ps.len() - j,
        all_quiet(push_each_from(idle(), seqs, ps, j).1),
    decreases ps.len() - j,
{
    if j < ps.len() {
        let p = ps[j];
        assert(p.len() >= 2 && nal_type(p[0]) == 28 && !fu_start(p[1]));
        assert(push_step(idle(), seqs[j], p) == (idle(), Some(Seq::<Seq<u8>>::empty())));
        lemma_idle_fragments(seqs, ps, j + 1);
        let rest = push_each_from(idle(), seqs, ps, j + 1).1;
        let outs = seq![Some(Seq::<Seq<u8>>::empty())] + rest;
        assert(push_each_from(idle(), seqs, ps, j).1 == outs);
        assert forall|k: int| 0 <= k < outs.len() implies #[trigger] outs[k] == Some(
            Seq::<Seq<u8>>::empty(),
        ) by {
            if k > 0 {
                assert(outs[k] == rest[k - 1]);
            }
        }
    }
}

proof fn lemma_continuing_fragments(seqs: Seq<u16>, ps: Seq<Seq<u8>>, j: int, acc: Seq<u8>)
    requires
        1 <= j < ps.len(),
        seqs.len() == ps.len(),
        middles_then_end(ps, 1),
    ensures
        ({
            let st = DepacketizerState { partial: Some(acc), last_seq: Some(seqs[j - 1]) };
            let (fin, outs) = push_each_from(st, seqs, ps, j);
            &&& fin == idle()
            &&& outs.len() == ps.len() - j
            &&& consecutive_from(seqs, j - 1) ==> (all_quiet(outs.take(outs.len() - 1))
                && outs.last() == Some(seq![acc + concat(fragment_bodies(ps).skip(j))]))
            &&& !consecutive_from(seqs, j - 1) ==> all_quiet(outs)
        }),
    decreases ps.len() - j,
{
    let st = DepacketizerState { partial: Some(acc), last_seq: Some(seqs[j - 1]) };
    let p = ps[j];
    let n = ps.len() as int;
    let bodies = fragment_bodies(ps);
    assert(p.len() >= 2 && nal_type(p[0]) == 28 && !fu_start(p[1]));
    let body = p.subrange(2, p.len() as int);
    assert(bodies[j] == body);
    assert(bodies.skip(j).drop_first() =~= bodies.skip(j + 1));
    assert(bodies.skip(j)[0] == body);
    let (next, out) = push_step(st, seqs[j], p);
    let (fin, rest) = push_each_from(next, seqs, ps, j + 1);
    let outs = seq![out] + rest;
    assert(push_each_from(st, seqs, ps, j) == (fin, outs));
    if seqs[j] != next_seq(seqs[j - 1]) {
        assert(!follows(seqs, j));
        assert(!consecutive_from(seqs, j - 1));
        assert(!continues(st, seqs[j]));
        assert(push_step(st, seqs[j], p) == (idle(), Some(Seq::<Seq<u8>>::empty())));
        lemma_idle_fragments(seqs, ps, j + 1);
        assert forall|k: int| 0 <= k < outs.len() implies #[trigger] outs[k] == Some(
            Seq::<Seq<u8>>::empty(),
        ) by {
            if k > 0 {
                assert(outs[k] == rest[k - 1]);
            }
        }
    } else if j == n - 1 {
        assert(fu_end(p[1]));
        assert(push_step(st, seqs[j], p) == (idle(), Some(seq![acc + body])));
        assert(rest =~= Seq::<Option<Seq<Seq<u8>>>>::empty());
        assert(bodies.skip(j + 1) =~= Seq::<Seq<u8>>::empty());
        assert(concat(bodies.skip(j + 1)) =~= Seq::<u8>::empty());
        assert(concat(bodies.skip(j)) == body + concat(bodies.skip(j + 1)));
        assert(concat(bodies.skip(j)) =~= body);
        assert(outs.take(outs.len() - 1) =~= Seq::<Option<Seq<Seq<u8>>>>::empty());
        assert(follows(seqs, j));
        assert(consecutive_from(seqs, j - 1));
    } else {
        assert(!fu_end(p[1]));
        let acc2 = acc + body;
        assert(push_step(st, seqs[j], p) == (
            DepacketizerState { partial: Some(acc2), last_seq: Some(seqs[j]) },
            Some(Seq::<Seq<u8>>::empty()),
        ));
        lemma_continuing_fragments(seqs, ps, j + 1, acc2);
        assert(acc2 + concat(bodies.skip(j + 1)) =~= acc + concat(bodies.skip(j)));
        assert(follows(seqs, j));
        if consecutive_from(seqs, j - 1) {
            assert(consecutive_from(seqs, j));
            assert(outs.last() == rest.last());
            assert forall|k: int| 0 <= k < outs.take(outs.len() - 1).len() implies #[trigger] outs.take(
                outs.len() - 1,
            )[k] == Some(Seq::<Seq<u8>>::empty()) by {
                if k > 0 {
                    assert(outs[k] == rest.take(rest.len() - 1)[k - 1]);
                }
            }
        } else {
            assert(follows(seqs, j));
            assert(!consecutive_from(seqs, j));
            assert forall|k: int| 0 <= k < outs.len() implies #[trigger] outs[k] == Some(
                Seq::<Seq<u8>>::empty(),
            ) by {
                if k > 0 {
                    assert(outs[k] == rest[k - 1]);
                }
            }
        }
    }
}

/// FU-A reassembly in general. Pushing a start fragment `ps[0]`, then middle fragments,
/// then an end fragment, with sequence numbers `seqs`, into a depacketizer in any
/// state: when each number directly follows the one before (wrapping from 65535 to
/// 0), every push but the last returns nothing and the last returns the one NAL unit
/// made of the rebuilt header and the data of all fragments in order; when any number
/// is missing, every push returns nothing, so a unit with a gap is never produced.
/// Either way nothing is left under reassembly. The outputs are those of successive
/// calls of `Depacketizer::push`, whose contract is one `push_step` per call.
pub proof fn lemma_fu_a_reassembly(st: DepacketizerState, seqs: Seq<u16>, ps: Seq<Seq<u8>>)
    requires
        ps.len() >= 2,
        seqs.len() == ps.len(),
        ps[0].len() >= 2,
        nal_type(ps[0][0]) == 28,
        fu_start(ps[0][1]),
        middles_then_end(ps, 1),
    ensures
        ({
            let (fin, outs) = push_each_from(st, seqs, ps, 0);
            let unit = seq![fu_nal_header(ps[0][0], ps[0][1])] + concat(fragment_bodies(ps));
            &&& fin == idle()
            &&& outs.len() == ps.len()
            &&& consecutive_from(seqs, 0) ==> (all_quiet(outs.take(outs.len() - 1))
                && outs.last() == Some(seq![unit]))
            &&& !consecutive_from(seqs, 0) ==> all_quiet(outs)
        }),
{
    let p = ps[0];
    let bodies = fragment_bodies(ps);
    let acc = seq![fu_nal_header(p[0], p[1])] + p.subrange(2, p.len() as int);
    let st1 = DepacketizerState { partial: Some(acc), last_seq: Some(seqs[0]) };
    assert(push_step(st, seqs[0], p) == (st1, Some(Seq::<Seq<u8>>::empty())));
    lemma_continuing_fragments(seqs, ps, 1, acc);
    let (fin, rest) = push_each_from(st1, seqs, ps, 1);
    let outs = seq![Some(Seq::<Seq<u8>>::empty())] + rest;
    assert(push_each_from(st, seqs, ps, 0) == (fin, outs));
    assert(bodies.skip(0).drop_first() =~= bodies.skip(1));
    assert(bodies.skip(0) =~= bodies);
    assert(bodies[0] == p.subrange(2, p.len() as int));
    assert(acc + concat(bodies.skip(1)) =~= seq![fu_nal_header(p[0], p[1])] + concat(bodies));
    if consecutive_from(seqs, 0) {
        assert(outs.last() == rest.last());
        assert forall|k: int| 0 <= k < outs.take(outs.len() - 1).len() implies #[trigger] outs.take(
            outs.len() - 1,
        )[k] == Some(Seq::<Seq<u8>>::empty()) by {
            if k > 0 {
                assert(outs[k] == rest.take(rest.len() - 1)[k - 1]);
            }
        }
    } else {
        assert forall|k: int| 0 <= k < outs.len() implies #[trigger] outs[k] == Some(
            Seq::<Seq<u8>>::empty(),
        ) by {
            if k > 0 {
                assert(outs[k] == rest[k - 1]);
            }
        }
    }
}

} // verus!
