//! SDP parsing (RFC 8866; the H.264 attributes are RFC 6184 section 8).
//!
//! An SDP document is a list of "key=value" lines. Every line after an "m=" line
//! belongs to that media section, until the next "m=" line. The client needs:
//!
//! ```text
//! m=video 0 RTP/AVP 96              the media kind and the payload type
//! a=control:trackID=0               the URL that SETUP goes to
//! a=rtpmap:96 H264/90000            the encoding and clock rate of payload type 96
//! a=fmtp:96 sprop-parameter-sets=Z0IAKY..,aM48gA==
//!                                   SPS and PPS in base64
//! ```

use vstd::prelude::*;

use crate::error::{Error, Result, protocol_error};
use crate::span::{Span, all_wf, same_text, spans_view};
use crate::text::{
    chars_of, find, find_from, lemma_find_from, lemma_find_in_suffix, lemma_split_nonempty,
    parse_unsigned, split, split_once, starts_with, strip_prefix, trim, trim_end_char,
    trim_start_char, words,
};

verus! {

#[derive(Debug)]
pub struct Media {
    pub kind: String,
    pub payload_type: u8,
    pub control: Option<String>,
    pub encoding: Option<String>,
    pub clock_rate: Option<u32>,
    pub sps: Option<Vec<u8>>,
    pub pps: Option<Vec<u8>>,
}

#[derive(Debug)]
pub struct Sdp {
    pub session_control: Option<String>,
    pub media: Vec<Media>,
}

/// The contents of a media section.
pub struct MediaView {
    pub kind: Seq<char>,
    pub payload_type: u8,
    pub control: Option<Seq<char>>,
    pub encoding: Option<Seq<char>>,
    pub clock_rate: Option<u32>,
    pub sps: Option<Seq<u8>>,
    pub pps: Option<Seq<u8>>,
}

/// The contents of an SDP document.
pub struct SdpView {
    pub session_control: Option<Seq<char>>,
    pub media: Seq<MediaView>,
}

pub open spec fn opt_chars(o: Option<String>) -> Option<Seq<char>> {
    match o {
        Some(s) => Some(s@),
        None => None,
    }
}

pub open spec fn opt_bytes(o: Option<Vec<u8>>) -> Option<Seq<u8>> {
    match o {
        Some(v) => Some(v@),
        None => None,
    }
}

impl View for Media {
    type V = MediaView;

    open spec fn view(&self) -> MediaView {
        MediaView {
            kind: self.kind@,
            payload_type: self.payload_type,
            control: opt_chars(self.control),
            encoding: opt_chars(self.encoding),
            clock_rate: self.clock_rate,
            sps: opt_bytes(self.sps),
            pps: opt_bytes(self.pps),
        }
    }
}

pub open spec fn media_views(v: Seq<Media>) -> Seq<MediaView> {
    v.map_values(|m: Media| m@)
}

impl View for Sdp {
    type V = SdpView;

    open spec fn view(&self) -> SdpView {
        SdpView { session_control: opt_chars(self.session_control), media: media_views(self.media@) }
    }
}

impl Default for Media {
    fn default() -> (m: Self)
        ensures
            m@ == new_media(Seq::empty(), 0),
    {
        Media {
            kind: String::new(),
            payload_type: 0,
            control: None,
            encoding: None,
            clock_rate: None,
            sps: None,
            pps: None,
        }
    }
}

impl Default for Sdp {
    fn default() -> (s: Self)
        ensures
            s@ == empty_sdp(),
    {
        let s = Sdp { session_control: None, media: Vec::new() };
        assert(media_views(s.media@) =~= Seq::<MediaView>::empty());
        s
    }
}

/// The value of a base64 character, `None` for a character outside the alphabet.
pub open spec fn sextet(c: char) -> Option<u32> {
    if 'A' <= c <= 'Z' {
        Some((c as u32 - 65) as u32)
    } else if 'a' <= c <= 'z' {
        Some((c as u32 - 97 + 26) as u32)
    } else if '0' <= c <= '9' {
        Some((c as u32 - 48 + 52) as u32)
    } else if c == '+' {
        Some(62)
    } else if c == '/' {
        Some(63)
    } else {
        None
    }
}

/// `u8::is_ascii_whitespace`.
pub open spec fn is_ascii_whitespace(c: char) -> bool {
    c == ' ' || c == '\t' || c == '\n' || c == '\x0C' || c == '\r'
}

/// Base64 decoding from index `i`, with `acc` holding the undelivered bits, `bits` of
/// them, and `out` the bytes so far. The first '=' ends the input, ASCII whitespace is
/// skipped, and any other character outside the alphabet fails the decoding.
pub open spec fn base64_from(s: Seq<char>, i: int, acc: u32, bits: u32, out: Seq<u8>) -> Option<
    Seq<u8>,
>
    decreases s.len() - i,
{
    if i < 0 || i >= s.len() || s[i] == '=' {
        Some(out)
    } else if is_ascii_whitespace(s[i]) {
        base64_from(s, i + 1, acc, bits, out)
    } else {
        match sextet(s[i]) {
            None => None,
            Some(x) => {
                let acc2 = (acc << 6u32) | x;
                let bits2 = (bits + 6) as u32;
                if bits2 >= 8 {
                    let bits3 = (bits2 - 8) as u32;
                    base64_from(s, i + 1, acc2, bits3, out.push((acc2 >> bits3) as u8))
                } else {
                    base64_from(s, i + 1, acc2, bits2, out)
                }
            },
        }
    }
}

/// The bytes that a base64 text stands for.
pub open spec fn base64_bytes(s: Seq<char>) -> Option<Seq<u8>> {
    base64_from(s, 0, 0, 0, Seq::empty())
}

/// A media section as an "m=" line starts it.
pub open spec fn new_media(kind: Seq<char>, payload_type: u8) -> MediaView {
    MediaView {
        kind,
        payload_type,
        control: None,
        encoding: None,
        clock_rate: None,
        sps: None,
        pps: None,
    }
}

pub open spec fn empty_sdp() -> SdpView {
    SdpView { session_control: None, media: Seq::empty() }
}

/// The effect of the fmtp parameters from index `i` on: each
/// "sprop-parameter-sets=<sps>,<pps>" sets both parameter sets.
pub open spec fn fmtp_from(m: MediaView, params: Seq<Seq<char>>, i: int) -> MediaView
    decreases params.len() - i,
{
    if 0 <= i < params.len() {
        let m2 = match strip_prefix(trim(params[i]), "sprop-parameter-sets="@) {
            Some(sets) => {
                let it = split(sets, ',');
                MediaView {
                    sps: base64_bytes(it[0]),
                    pps: if it.len() > 1 {
                        base64_bytes(it[1])
                    } else {
                        None
                    },
                    ..m
                }
            },
            None => m,
        };
        fmtp_from(m2, params, i + 1)
    } else {
        m
    }
}

/// The media section after an "a=rtpmap:" line with value `rest`.
pub open spec fn rtpmap(m: MediaView, rest: Seq<char>) -> MediaView {
    match split_once(rest, ' ') {
        Some((_, enc)) => {
            let parts = split(enc, '/');
            MediaView {
                encoding: Some(parts[0]),
                clock_rate: if parts.len() > 1 {
                    match parse_unsigned(parts[1], 4294967295) {
                        Some(v) => Some(v as u32),
                        None => None,
                    }
                } else {
                    None
                },
                ..m
            }
        },
        None => m,
    }
}

/// The media section after an "a=fmtp:" line with value `rest`.
pub open spec fn fmtp(m: MediaView, rest: Seq<char>) -> MediaView {
    let params = match split_once(rest, ' ') {
        Some((_, p)) => p,
        None => Seq::empty(),
    };
    fmtp_from(m, split(params, ';'), 0)
}

/// The document after one line (without its line break).
pub open spec fn sdp_line(sdp: SdpView, line: Seq<char>) -> SdpView {
    match split_once(line, '=') {
        None => sdp,
        Some((key, value)) => {
            if key == "m"@ {
                let w = words(value);
                let kind = if w.len() > 0 {
                    w[0]
                } else {
                    Seq::empty()
                };
                let pt: u8 = if w.len() > 3 {
                    match parse_unsigned(w[3], 255) {
                        Some(v) => v as u8,
                        None => 0,
                    }
                } else {
                    0
                };
                SdpView { media: sdp.media.push(new_media(kind, pt)), ..sdp }
            } else if key == "a"@ {
                let (name, rest) = match split_once(value, ':') {
                    Some((n, r)) => (n, r),
                    None => (value, Seq::empty()),
                };
                let n = sdp.media.len();
                if name == "control"@ {
                    if n > 0 {
                        SdpView {
                            media: sdp.media.update(
                                n - 1,
                                MediaView { control: Some(rest), ..sdp.media[n - 1] },
                            ),
                            ..sdp
                        }
                    } else {
                        SdpView { session_control: Some(rest), ..sdp }
                    }
                } else if name == "rtpmap"@ && n > 0 {
                    SdpView { media: sdp.media.update(n - 1, rtpmap(sdp.media[n - 1], rest)), ..sdp }
                } else if name == "fmtp"@ && n > 0 {
                    SdpView { media: sdp.media.update(n - 1, fmtp(sdp.media[n - 1], rest)), ..sdp }
                } else {
                    sdp
                }
            } else {
                sdp
            }
        },
    }
}

/// The document after the lines of `t` from index `i` on. Lines end at '\n' (as
/// `str::lines` splits them), and '\r' characters at the end of a line are dropped.
pub open spec fn sdp_from(t: Seq<char>, i: int, sdp: SdpView) -> SdpView
    decreases t.len() + 1 - i,
{
    if 0 <= i < t.len() {
        let j = find_from(t, '\n', i);
        proof {
            lemma_find_from(t, '\n', i);
            assert(j >= i);
        }
        sdp_from(t, j + 1, sdp_line(sdp, trim_end_char(t.subrange(i, j), '\r')))
    } else {
        sdp
    }
}

/// The document that the text `t` describes.
pub open spec fn sdp_of(t: Seq<char>) -> SdpView {
    sdp_from(t, 0, empty_sdp())
}

/// The index of the first media section of kind "video" from index `i` on.
pub open spec fn video_from(media: Seq<MediaView>, i: int) -> Option<int>
    decreases media.len() - i,
{
    if 0 <= i < media.len() {
        if media[i].kind == "video"@ {
            Some(i)
        } else {
            video_from(media, i + 1)
        }
    } else {
        None
    }
}

/// The full track URL for an `a=control` value and the presentation URL: an absolute
/// value as it is, "*" or nothing for the presentation URL itself, and otherwise the
/// value joined to the presentation URL with exactly one '/'.
pub open spec fn resolved(base: Seq<char>, control: Seq<char>) -> Seq<char> {
    if starts_with(control, "rtsp://"@) {
        control
    } else if control == "*"@ || control.len() == 0 {
        base
    } else {
        trim_end_char(base, '/') + "/"@ + trim_start_char(control, '/')
    }
}

impl Sdp {
    /// The first media section of kind "video".
    pub fn video(&self) -> (r: Option<&Media>)
        ensures
            match video_from(self@.media, 0) {
                Some(i) => r matches Some(m) && m@ == self@.media[i],
                None => r is None,
            },
    {
        let mut i: usize = 0;
        while i < self.media.len()
            invariant
                i <= self.media@.len(),
                video_from(self@.media, 0) == video_from(self@.media, i as int),
            decreases self.media@.len() - i,
        {
            if same_text(self.media[i].kind.as_str(), "video") {
                return Some(&self.media[i]);
            }
            i += 1;
        }
        None
    }
}

fn sextet_of(c: char) -> (r: Option<u32>)
    ensures
        r == sextet(c),
{
    if 'A' <= c && c <= 'Z' {
        Some(c as u32 - 65)
    } else if 'a' <= c && c <= 'z' {
        Some(c as u32 - 97 + 26)
    } else if '0' <= c && c <= '9' {
        Some(c as u32 - 48 + 52)
    } else if c == '+' {
        Some(62)
    } else if c == '/' {
        Some(63)
    } else {
        None
    }
}

/// A small base64 decoder: the first '=' ends the input, ASCII whitespace is skipped,
/// and any other character outside the alphabet is refused.
pub fn base64_decode(input: &str) -> (r: Option<Vec<u8>>)
    ensures
        match r {
            Some(v) => base64_bytes(input@) == Some(v@),
            None => base64_bytes(input@) is None,
        },
{
    let cs = chars_of(input);
    let mut out: Vec<u8> = Vec::new();
    let mut acc: u32 = 0;
    let mut bits: u32 = 0;
    let mut i: usize = 0;
    while i < cs.len()
        invariant
            i <= cs@.len(),
            cs@ == input@,
            bits <= 7,
            base64_bytes(input@) == base64_from(cs@, i as int, acc, bits, out@),
        decreases cs@.len() - i,
    {
        let c = cs[i];
        if c == '=' {
            return Some(out);
        }
        if c == ' ' || c == '\t' || c == '\n' || c == '\x0C' || c == '\r' {
            i += 1;
            continue;
        }
        match sextet_of(c) {
            None => {
                return None;
            },
            Some(x) => {
                acc = (acc << 6u32) | x;
                bits += 6;
                if bits >= 8 {
                    bits -= 8;
                    out.push((acc >> bits) as u8);
                }
            },
        }
        i += 1;
    }
    Some(out)
}

fn apply_rtpmap(m: &mut Media, rest: Span)
    requires
        rest.wf(),
    ensures
        final(m)@ == rtpmap(old(m)@, rest@),
{
    match rest.split_once(' ') {
        Some((_, enc)) => {
            let parts = enc.split('/');
            proof {
                lemma_split_nonempty(enc@, '/');
            }
            assert(parts@[0]@ == split(enc@, '/')[0]);
            m.encoding = Some(parts[0].to_string());
            if parts.len() > 1 {
                assert(parts@[1]@ == split(enc@, '/')[1]);
                m.clock_rate = match parts[1].parse_unsigned(4294967295) {
                    Some(v) => Some(v as u32),
                    None => None,
                };
            } else {
                m.clock_rate = None;
            }
        },
        None => {},
    }
}

fn apply_fmtp(m: &mut Media, rest: Span)
    requires
        rest.wf(),
    ensures
        final(m)@ == fmtp(old(m)@, rest@),
{
    let params = match rest.split_once(' ') {
        Some((_, p)) => p,
        None => rest.sub(0, 0),
    };
    assert(params@ =~= match split_once(rest@, ' ') {
        Some((_, p)) => p,
        None => Seq::empty(),
    });
    let list = params.split(';');
    let ghost all = split(params@, ';');
    let mut i: usize = 0;
    while i < list.len()
        invariant
            i <= list@.len(),
            all_wf(list@),
            spans_view(list@) == all,
            fmtp(old(m)@, rest@) == fmtp_from(m@, all, i as int),
        decreases list@.len() - i,
    {
        assert(list@[i as int].wf());
        let t = list[i].trim();
        assert(t@ == trim(all[i as int]));
        match t.strip_prefix("sprop-parameter-sets=") {
            Some(sets) => {
                let it = sets.split(',');
                proof {
                    lemma_split_nonempty(sets@, ',');
                }
                assert(it@[0]@ == split(sets@, ',')[0]);
                m.sps = base64_decode(it[0].text);
                if it.len() > 1 {
                    assert(it@[1]@ == split(sets@, ',')[1]);
                    m.pps = base64_decode(it[1].text);
                } else {
                    m.pps = None;
                }
            },
            None => {},
        }
        i += 1;
    }
}

fn apply_line(sdp: &mut Sdp, line: Span)
    requires
        line.wf(),
    ensures
        final(sdp)@ == sdp_line(old(sdp)@, line@),
{
    match line.split_once('=') {
        None => {},
        Some((key, value)) => {
            if key.equals("m") {
                let w = value.words();
                assert(w@.len() == words(value@).len());
                let kind = if w.len() > 0 {
                    assert(w@[0].wf());
                    assert(w@[0]@ == words(value@)[0]);
                    w[0].to_string()
                } else {
                    String::new()
                };
                let pt: u8 = if w.len() > 3 {
                    assert(w@[3]@ == words(value@)[3]);
                    match w[3].parse_unsigned(255) {
                        Some(v) => v as u8,
                        None => 0,
                    }
                } else {
                    0
                };
                let media = Media {
                    kind,
                    payload_type: pt,
                    control: None,
                    encoding: None,
                    clock_rate: None,
                    sps: None,
                    pps: None,
                };
                let ghost before = media_views(sdp.media@);
                sdp.media.push(media);
                assert(media_views(sdp.media@) =~= before.push(media@));
            } else if key.equals("a") {
                let (name, rest) = match value.split_once(':') {
                    Some((n, r)) => (n, r),
                    None => (value, value.sub(value.len(), value.len())),
                };
                assert((name@, rest@) == match split_once(value@, ':') {
                    Some((n, r)) => (n, r),
                    None => (value@, Seq::<char>::empty()),
                });
                let n = sdp.media.len();
                let ghost before = media_views(sdp.media@);
                if name.equals("control") {
                    if n > 0 {
                        let mut m = sdp.media.pop().unwrap();
                        m.control = Some(rest.to_string());
                        sdp.media.push(m);
                        assert(media_views(sdp.media@) =~= before.update(n - 1, m@));
                    } else {
                        sdp.session_control = Some(rest.to_string());
                    }
                } else if name.equals("rtpmap") && n > 0 {
                    let mut m = sdp.media.pop().unwrap();
                    apply_rtpmap(&mut m, rest);
                    sdp.media.push(m);
                    assert(media_views(sdp.media@) =~= before.update(n - 1, m@));
                } else if name.equals("fmtp") && n > 0 {
                    let mut m = sdp.media.pop().unwrap();
                    apply_fmtp(&mut m, rest);
                    sdp.media.push(m);
                    assert(media_views(sdp.media@) =~= before.update(n - 1, m@));
                }
            }
        },
    }
}

/// Parses an SDP document. It fails when the document has no "m=" line.
pub fn parse(text: &str) -> (r: Result<Sdp>)
    ensures
        r is Err <==> sdp_of(text@).media.len() == 0,
        r matches Ok(s) ==> s@ == sdp_of(text@),
        r matches Err(e) ==> (e matches Error::Protocol(m) && m@ == "SDP contained no m= line"@),
{
    let cs = chars_of(text);
    let all = Span::new(text, cs.as_slice());
    let mut sdp = Sdp { session_control: None, media: Vec::new() };
    assert(media_views(sdp.media@) =~= Seq::<MediaView>::empty());
    let n = cs.len();
    let mut pos: usize = 0;
    while pos < n
        invariant
            pos <= n == all@.len(),
            all@ == text@,
            all.wf(),
            sdp_of(text@) == sdp_from(all@, pos as int, sdp@),
        decreases n - pos,
    {
        let rest = all.sub(pos, n);
        let k = rest.find('\n');
        proof {
            lemma_find_in_suffix(all@, '\n', pos as int);
        }
        let line = rest.sub(0, k).trim_end_char('\r');
        assert(rest@.subrange(0, k as int) =~= all@.subrange(pos as int, pos + k));
        let ghost before = sdp@;
        apply_line(&mut sdp, line);
        assert(sdp_from(all@, pos as int, before) == sdp_from(all@, pos + k + 1, sdp@));
        if k < rest.len() {
            pos = pos + k + 1;
        } else {
            assert(sdp_from(all@, pos + k + 1, sdp@) == sdp@);
            pos = n;
        }
    }
    if sdp.media.len() == 0 {
        return Err(protocol_error("SDP contained no m= line".to_owned()));
    }
    Ok(sdp)
}

/// Builds the full track URL from an `a=control` value and the presentation URL.
pub fn resolve_control(base: &str, control: &str) -> (r: String)
    ensures
        r@ == resolved(base@, control@),
{
    let bc = chars_of(base);
    let cc = chars_of(control);
    let b = Span::new(base, bc.as_slice());
    let c = Span::new(control, cc.as_slice());
    if c.starts_with("rtsp://") {
        return control.to_owned();
    }
    if c.equals("*") || c.len() == 0 {
        return base.to_owned();
    }
    let mut out = String::new();
    out.append(b.trim_end_char('/').text);
    out.append("/");
    out.append(c.trim_start_char('/').text);
    out
}

/// An "a=control:" line describes the session as long as no "m=" line has appeared, and
/// after one it describes the last media section only, leaving the others as they were.
pub proof fn lemma_control_line(sdp: SdpView, value: Seq<char>)
    ensures
        ({
            let line = seq!['a', '=', 'c', 'o', 'n', 't', 'r', 'o', 'l', ':'] + value;
            let after = sdp_line(sdp, line);
            let n = sdp.media.len();
            &&& n == 0 ==> after == SdpView { session_control: Some(value), ..sdp }
            &&& n > 0 ==> after.session_control == sdp.session_control && after.media.len() == n
                && after.media[n - 1] == MediaView { control: Some(value), ..sdp.media[n - 1] }
                && forall|k: int| 0 <= k < n - 1 ==> after.media[k] == sdp.media[k]
        }),
{
    reveal_strlit("a");
    reveal_strlit("m");
    reveal_strlit("control");
    let line = seq!['a', '=', 'c', 'o', 'n', 't', 'r', 'o', 'l', ':'] + value;
    assert(line[0] == 'a');
    assert(line[1] == '=');
    assert(crate::text::find_from(line, '=', 1) == 1);
    assert(crate::text::find(line, '=') == 1);
    let key = line.take(1);
    let rest = line.skip(2);
    assert(key =~= "a"@);
    assert("m"@[0] == 'm');
    assert(key[0] != "m"@[0]);
    assert(key != "m"@);
    assert(rest =~= seq!['c', 'o', 'n', 't', 'r', 'o', 'l', ':'] + value);
    reveal_with_fuel(crate::text::find_from, 9);
    assert(rest[7] == ':');
    assert(crate::text::find(rest, ':') == 7);
    assert(rest.take(7) =~= "control"@);
    assert(rest.skip(8) =~= value);
}

/// The media section with the parameter sets of a "sprop-parameter-sets=" value `sets`:
/// the base64 decodings of its first and (when there is one) second comma-separated set.
pub open spec fn with_parameter_sets(m: MediaView, sets: Seq<char>) -> MediaView {
    let it = split(sets, ',');
    MediaView {
        sps: base64_bytes(it[0]),
        pps: if it.len() > 1 {
            base64_bytes(it[1])
        } else {
            None
        },
        ..m
    }
}

/// The parameter `p` of an fmtp list is "sprop-parameter-sets=" with the value `sets`.
pub open spec fn sprop_value(p: Seq<char>) -> Option<Seq<char>> {
    strip_prefix(trim(p), "sprop-parameter-sets="@)
}

proof fn lemma_fmtp_rest_keeps(m: MediaView, params: Seq<Seq<char>>, i: int)
    requires
        0 <= i,
        forall|j: int| i <= j < params.len() ==> sprop_value(#[trigger] params[j]) is None,
    ensures
        fmtp_from(m, params, i) == m,
    decreases params.len() - i,
{
    if i < params.len() {
        assert(sprop_value(params[i]) is None);
        lemma_fmtp_rest_keeps(m, params, i + 1);
    }
}

proof fn lemma_fmtp_last_sets(m: MediaView, params: Seq<Seq<char>>, i: int, k: int, sets: Seq<char>)
    requires
        0 <= i <= k < params.len(),
        sprop_value(params[k]) == Some(sets),
        forall|j: int| k < j < params.len() ==> sprop_value(#[trigger] params[j]) is None,
    ensures
        fmtp_from(m, params, i) == with_parameter_sets(m, sets),
    decreases params.len() - i,
{
    if i == k {
        let m2 = with_parameter_sets(m, sets);
        lemma_fmtp_rest_keeps(m2, params, i + 1);
    } else {
        let m2 = match sprop_value(params[i]) {
            Some(x) => with_parameter_sets(m, x),
            None => m,
        };
        lemma_fmtp_last_sets(m2, params, i + 1, k, sets);
        assert(with_parameter_sets(m2, sets) == with_parameter_sets(m, sets));
    }
}

/// What an "a=fmtp:" line does to its media section. Its parameters (after the payload
/// type, separated by ';') other than "sprop-parameter-sets=" leave the section as it
/// was, wherever they stand; the last "sprop-parameter-sets=<sps>,<pps>" among them
/// gives the SPS and PPS, as the base64 decodings of its two sets, and nothing else
/// changes.
pub proof fn lemma_fmtp_parameter_sets(m: MediaView, pt: Seq<char>, params: Seq<char>)
    requires
        forall|i: int| 0 <= i < pt.len() ==> pt[i] != ' ',
    ensures
        ({
            let line = pt + " "@ + params;
            let ps = split(params, ';');
            &&& (forall|j: int| 0 <= j < ps.len() ==> sprop_value(#[trigger] ps[j]) is None)
                ==> fmtp(m, line) == m
            &&& forall|k: int|
                0 <= k < ps.len() && sprop_value(#[trigger] ps[k]) is Some && (forall|j: int|
                    k < j < ps.len() ==> sprop_value(#[trigger] ps[j]) is None) ==> fmtp(m, line)
                    == with_parameter_sets(m, sprop_value(ps[k])->0)
        }),
{
    reveal_strlit(" ");
    let line = pt + " "@ + params;
    lemma_find_from(line, ' ', 0);
    let k = find(line, ' ');
    assert(line[pt.len() as int] == ' ');
    if k < pt.len() {
        assert(line[k] == pt[k]);
    }
    assert(k == pt.len());
    assert(line.skip(k + 1) =~= params);
    assert(split_once(line, ' ') == Some((line.take(k), params)));
    let ps = split(params, ';');
    if forall|j: int| 0 <= j < ps.len() ==> sprop_value(#[trigger] ps[j]) is None {
        lemma_fmtp_rest_keeps(m, ps, 0);
    }
    assert forall|k: int|
        0 <= k < ps.len() && sprop_value(#[trigger] ps[k]) is Some && (forall|j: int|
            k < j < ps.len() ==> sprop_value(#[trigger] ps[j]) is None) implies fmtp(m, line)
        == with_parameter_sets(m, sprop_value(ps[k])->0) by {
        lemma_fmtp_last_sets(m, ps, 0, k, sprop_value(ps[k])->0);
    }
}

/// An "a=fmtp:" line after an "m=" line acts on the last media section only, as
/// `fmtp` says, and leaves the session and the other sections as they were.
pub proof fn lemma_fmtp_line(sdp: SdpView, value: Seq<char>)
    requires
        sdp.media.len() > 0,
    ensures
        ({
            let line = seq!['a', '=', 'f', 'm', 't', 'p', ':'] + value;
            let after = sdp_line(sdp, line);
            let n = sdp.media.len();
            &&& after.session_control == sdp.session_control
            &&& after.media.len() == n
            &&& after.media[n - 1] == fmtp(sdp.media[n - 1], value)
            &&& forall|k: int| 0 <= k < n - 1 ==> after.media[k] == sdp.media[k]
        }),
{
    reveal_strlit("a");
    reveal_strlit("m");
    reveal_strlit("control");
    reveal_strlit("rtpmap");
    reveal_strlit("fmtp");
    let line = seq!['a', '=', 'f', 'm', 't', 'p', ':'] + value;
    assert(line[0] == 'a');
    assert(line[1] == '=');
    assert(find_from(line, '=', 1) == 1);
    assert(find(line, '=') == 1);
    let key = line.take(1);
    let rest = line.skip(2);
    assert(key =~= "a"@);
    assert(key[0] != "m"@[0]);
    assert(key != "m"@);
    assert(rest =~= seq!['f', 'm', 't', 'p', ':'] + value);
    reveal_with_fuel(find_from, 6);
    assert(rest[4] == ':');
    assert(find(rest, ':') == 4);
    assert(rest.take(4) =~= "fmtp"@);
    assert(rest.skip(5) =~= value);
    assert("fmtp"@ != "control"@);
    assert("fmtp"@ != "rtpmap"@);
}

/// The base64 alphabet (RFC 4648): the character for a value below 64.
pub open spec fn base64_char(v: u8) -> char {
    if v < 26 {
        (v + 65) as char
    } else if v < 52 {
        (v - 26 + 97) as char
    } else if v < 62 {
        (v - 52 + 48) as char
    } else if v == 62 {
        '+'
    } else {
        '/'
    }
}

/// The standard base64 encoding of `b` (RFC 4648): four characters for every three
/// bytes, and for a final one or two bytes two or three characters, followed by '='
/// padding up to four when `pad` is set.
pub open spec fn base64_encode(b: Seq<u8>, pad: bool) -> Seq<char>
    decreases b.len(),
{
    if b.len() >= 3 {
        seq![
            base64_char(b[0] >> 2),
            base64_char(((b[0] & 3) << 4) | (b[1] >> 4)),
            base64_char(((b[1] & 15) << 2) | (b[2] >> 6)),
            base64_char(b[2] & 63),
        ] + base64_encode(b.skip(3), pad)
    } else if b.len() == 2 {
        seq![
            base64_char(b[0] >> 2),
            base64_char(((b[0] & 3) << 4) | (b[1] >> 4)),
            base64_char((b[1] & 15) << 2),
        ] + if pad {
            seq!['=']
        } else {
            Seq::empty()
        }
    } else if b.len() == 1 {
        seq![base64_char(b[0] >> 2), base64_char((b[0] & 3) << 4)] + if pad {
            seq!['=', '=']
        } else {
            Seq::empty()
        }
    } else {
        Seq::empty()
    }
}

proof fn lemma_base64_char(v: u8)
    requires
        v < 64,
    ensures
        sextet(base64_char(v)) == Some(v as u32),
        base64_char(v) != '=',
        !is_ascii_whitespace(base64_char(v)),
{
    if v < 26 {
        assert(((v + 65) as char) as u32 == v + 65);
    } else if v < 52 {
        assert(((v - 26 + 97) as char) as u32 == v - 26 + 97);
    } else if v < 62 {
        assert(((v - 52 + 48) as char) as u32 == v - 52 + 48);
    }
}

proof fn lemma_shift_in(a: u32, x: u32)
    by (bit_vector)
    requires
        x < 64,
    ensures
        ((a << 6u32) | x) & 63 == x,
{
}

proof fn lemma_emit_high(a1: u32, x0: u32, x1: u32)
    by (bit_vector)
    requires
        a1 & 63 == x0,
        x1 < 64,
    ensures
        ((((a1 << 6u32) | x1) >> 4u32) as u8) as u32 == ((x0 << 2u32) | (x1 >> 4u32)) & 255,
{
}

proof fn lemma_emit_middle(a2: u32, x1: u32, x2: u32)
    by (bit_vector)
    requires
        a2 & 63 == x1,
        x2 < 64,
    ensures
        ((((a2 << 6u32) | x2) >> 2u32) as u8) as u32 == (((x1 & 15) << 4u32) | (x2 >> 2u32)) & 255,
{
}

proof fn lemma_emit_low(a3: u32, x2: u32, x3: u32)
    by (bit_vector)
    requires
        a3 & 63 == x2,
        x3 < 64,
    ensures
        ((((a3 << 6u32) | x3) >> 0u32) as u8) as u32 == (((x2 & 3) << 6u32) | x3) & 255,
{
}

proof fn lemma_split_bytes(b0: u8, b1: u8, b2: u8)
    by (bit_vector)
    ensures
        b0 >> 2 < 64,
        ((b0 & 3) << 4) | (b1 >> 4) < 64,
        ((b1 & 15) << 2) | (b2 >> 6) < 64,
        b2 & 63 < 64,
        (b0 & 3) << 4 < 64,
        (b1 & 15) << 2 < 64,
        ((((b0 >> 2) as u32) << 2u32) | ((((b0 & 3) << 4) | (b1 >> 4)) as u32 >> 4u32)) & 255
            == b0 as u32,
        ((((b0 >> 2) as u32) << 2u32) | ((((b0 & 3) << 4) as u32) >> 4u32)) & 255 == b0 as u32,
        ((((((b0 & 3) << 4) | (b1 >> 4)) as u32 & 15) << 4u32) | ((((b1 & 15) << 2) | (b2 >> 6))
            as u32 >> 2u32)) & 255 == b1 as u32,
        ((((((b0 & 3) << 4) | (b1 >> 4)) as u32 & 15) << 4u32) | ((((b1 & 15) << 2) as u32)
            >> 2u32)) & 255 == b1 as u32,
        ((((((b1 & 15) << 2) | (b2 >> 6)) as u32 & 3) << 6u32) | ((b2 & 63) as u32)) & 255
            == b2 as u32,
{
}

proof fn lemma_decode_encoded(s: Seq<char>, i: int, acc: u32, out: Seq<u8>, b: Seq<u8>, pad: bool)
    requires
        0 <= i <= s.len(),
        s.skip(i) == base64_encode(b, pad),
    ensures
        base64_from(s, i, acc, 0, out) == Some(out + b),
    decreases b.len(),
{
    if b.len() == 0 {
        assert(s.skip(i).len() == 0);
        assert(out + b =~= out);
    } else {
        let b0 = b[0];
        let b1 = if b.len() >= 2 {
            b[1]
        } else {
            0u8
        };
        let b2 = if b.len() >= 3 {
            b[2]
        } else {
            0u8
        };
        lemma_split_bytes(b0, b1, b2);
        let v0 = b0 >> 2;
        let v1 = if b.len() >= 2 {
            ((b0 & 3) << 4) | (b1 >> 4)
        } else {
            (b0 & 3) << 4
        };
        let v2 = if b.len() >= 3 {
            ((b1 & 15) << 2) | (b2 >> 6)
        } else {
            (b1 & 15) << 2
        };
        let v3 = b2 & 63;
        lemma_base64_char(v0);
        lemma_base64_char(v1);
        let (x0, x1, x2, x3) = (v0 as u32, v1 as u32, v2 as u32, v3 as u32);
        let a1 = (acc << 6u32) | x0;
        let a2 = (a1 << 6u32) | x1;
        let a3 = (a2 << 6u32) | x2;
        let a4 = (a3 << 6u32) | x3;
        lemma_shift_in(acc, x0);
        lemma_shift_in(a1, x1);
        lemma_emit_high(a1, x0, x1);
        let e = base64_encode(b, pad);
        if b.len() >= 3 {
            assert(e == seq![
                base64_char(v0),
                base64_char(v1),
                base64_char(v2),
                base64_char(v3),
            ] + base64_encode(b.skip(3), pad));
        } else if b.len() == 2 {
            assert(e == seq![base64_char(v0), base64_char(v1), base64_char(v2)] + if pad {
                seq!['=']
            } else {
                Seq::empty()
            });
        } else {
            assert(e == seq![base64_char(v0), base64_char(v1)] + if pad {
                seq!['=', '=']
            } else {
                Seq::empty()
            });
        }
        assert(s.skip(i).len() == s.len() - i);
        assert(s[i] == s.skip(i)[0]);
        assert(s[i + 1] == s.skip(i)[1]);
        assert(base64_from(s, i, acc, 0, out) == base64_from(s, i + 1, a1, 6, out));
        assert(base64_from(s, i + 1, a1, 6, out) == base64_from(s, i + 2, a2, 4, out.push(b0)));
        if b.len() == 1 {
            assert(out.push(b0) =~= out + b);
            if pad {
                assert(s[i + 2] == s.skip(i)[2]);
            } else {
                assert(s.len() == i + 2);
            }
        } else {
            lemma_base64_char(v2);
            lemma_shift_in(a2, x2);
            lemma_emit_middle(a2, x1, x2);
            assert(s[i + 2] == s.skip(i)[2]);
            assert(base64_from(s, i + 2, a2, 4, out.push(b0)) == base64_from(
                s,
                i + 3,
                a3,
                2,
                out.push(b0).push(b1),
            ));
            if b.len() == 2 {
                assert(out.push(b0).push(b1) =~= out + b);
                if pad {
                    assert(s[i + 3] == s.skip(i)[3]);
                } else {
                    assert(s.len() == i + 3);
                }
            } else {
                lemma_base64_char(v3);
                lemma_emit_low(a3, x2, x3);
                assert(s[i + 3] == s.skip(i)[3]);
                let o3 = out.push(b0).push(b1).push(b2);
                assert(base64_from(s, i + 3, a3, 2, out.push(b0).push(b1)) == base64_from(
                    s,
                    i + 4,
                    a4,
                    0,
                    o3,
                ));
                assert(s.skip(i + 4) =~= s.skip(i).skip(4));
                assert(e.skip(4) =~= base64_encode(b.skip(3), pad));
                assert(s.skip(i + 4) =~= base64_encode(b.skip(3), pad));
                lemma_decode_encoded(s, i + 4, a4, o3, b.skip(3), pad);
                assert(o3 + b.skip(3) =~= out + b);
            }
        }
    }
}

/// Decoding reads back the standard base64 encoding of any bytes, with or without the
/// '=' padding.
pub proof fn lemma_base64_round_trip(b: Seq<u8>, pad: bool)
    ensures
        base64_bytes(base64_encode(b, pad)) == Some(b),
{
    let s = base64_encode(b, pad);
    assert(s.skip(0) =~= s);
    lemma_decode_encoded(s, 0, 0, Seq::empty(), b, pad);
    assert(Seq::<u8>::empty() + b =~= b);
}

/// The character at `k` fails a decoding that starts at `i`: no '=' comes before it
/// from `i` on, and it is neither ASCII whitespace nor in the alphabet.
pub open spec fn refused_at(s: Seq<char>, i: int, k: int) -> bool {
    &&& i <= k < s.len()
    &&& forall|j: int| i <= j <= k ==> s[j] != '='
    &&& !is_ascii_whitespace(s[k])
    &&& sextet(s[k]) is None
}

proof fn lemma_refused_from(s: Seq<char>, i: int, acc: u32, bits: u32, out: Seq<u8>)
    requires
        0 <= i,
    ensures
        base64_from(s, i, acc, bits, out) is None <==> exists|k: int| #[trigger] refused_at(s, i, k),
    decreases s.len() - i,
{
    if i >= s.len() {
        assert(!exists|k: int| #[trigger] refused_at(s, i, k));
    } else if s[i] == '=' {
        assert forall|k: int| !#[trigger] refused_at(s, i, k) by {
            if i <= k < s.len() {
                assert(s[i] == '=');
            }
        }
    } else if is_ascii_whitespace(s[i]) || sextet(s[i]) is Some {
        let (acc2, bits2, out2) = if is_ascii_whitespace(s[i]) {
            (acc, bits, out)
        } else {
            let x = sextet(s[i])->0;
            let a = (acc << 6u32) | x;
            let b = (bits + 6) as u32;
            if b >= 8 {
                (a, (b - 8) as u32, out.push((a >> ((b - 8) as u32)) as u8))
            } else {
                (a, b, out)
            }
        };
        assert(base64_from(s, i, acc, bits, out) == base64_from(s, i + 1, acc2, bits2, out2));
        lemma_refused_from(s, i + 1, acc2, bits2, out2);
        if exists|k: int| #[trigger] refused_at(s, i, k) {
            let k = choose|k: int| #[trigger] refused_at(s, i, k);
            assert(k != i);
            assert(refused_at(s, i + 1, k));
        }
        if exists|k: int| #[trigger] refused_at(s, i + 1, k) {
            let k = choose|k: int| #[trigger] refused_at(s, i + 1, k);
            assert(refused_at(s, i, k));
        }
    } else {
        assert(refused_at(s, i, i));
    }
}

/// Decoding fails exactly when some character before the first '=' is neither ASCII
/// whitespace nor in the base64 alphabet.
pub proof fn lemma_base64_refusal(s: Seq<char>)
    ensures
        base64_bytes(s) is None <==> exists|k: int| #[trigger] refused_at(s, 0, k),
{
    lemma_refused_from(s, 0, 0, 0, Seq::empty());
}

} // verus!
