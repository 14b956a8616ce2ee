//! Building RTSP requests (RFC 2326 section 6).
//!
//! ```text
//! OPTIONS rtsp://127.0.0.1:8554/test RTSP/1.0\r\n
//! CSeq: 1\r\n
//! \r\n
//! ```

use vstd::prelude::*;

use crate::text::{decimal, push_decimal};

verus! {

/// The contents of a list of (name, value) header pairs.
pub open spec fn headers_view(h: Seq<(&str, &str)>) -> Seq<(Seq<char>, Seq<char>)> {
    h.map_values(|p: (&str, &str)| (p.0@, p.1@))
}

/// One "name: value\r\n" line per header, in order.
pub open spec fn header_lines(hs: Seq<(Seq<char>, Seq<char>)>) -> Seq<char>
    decreases hs.len(),
{
    if hs.len() == 0 {
        Seq::empty()
    } else {
        header_lines(hs.drop_last()) + hs.last().0 + ": "@ + hs.last().1 + "\r\n"@
    }
}

/// The text of a request: the request line, the CSeq header, the given headers in
/// order, and the empty line that ends the headers.
pub open spec fn request_text(
    method: Seq<char>,
    url: Seq<char>,
    cseq: u32,
    headers: Seq<(Seq<char>, Seq<char>)>,
) -> Seq<char> {
    method + " "@ + url + " RTSP/1.0\r\n"@ + "CSeq: "@ + decimal(cseq as nat) + "\r\n"@
        + header_lines(headers) + "\r\n"@
}

/// Builds one request. `headers` holds the headers this method needs besides CSeq,
/// which is added here.
pub fn build(method: &str, url: &str, cseq: u32, headers: &[(&str, &str)]) -> (r: String)
    ensures
        r@ == request_text(method@, url@, cseq, headers_view(headers@)),
{
    let mut out = String::new();
    out.append(method);
    out.append(" ");
    out.append(url);
    out.append(" RTSP/1.0\r\n");
    out.append("CSeq: ");
    push_decimal(&mut out, cseq as u64);
    out.append("\r\n");
    let ghost start = out@;
    let ghost hv = headers_view(headers@);
    let mut i: usize = 0;
    assert(hv.take(0) =~= Seq::<(Seq<char>, Seq<char>)>::empty());
    assert(out@ =~= start + header_lines(hv.take(0)));
    while i < headers.len()
        invariant
            i <= headers@.len(),
            hv == headers_view(headers@),
            out@ == start + header_lines(hv.take(i as int)),
        decreases headers@.len() - i,
    {
        let (name, value) = headers[i];
        out.append(name);
        out.append(": ");
        out.append(value);
        out.append("\r\n");
        assert(hv.take(i + 1).drop_last() =~= hv.take(i as int));
        assert(hv.take(i + 1).last() == (name@, value@));
        assert(out@ =~= start + header_lines(hv.take(i + 1)));
        i += 1;
    }
    assert(hv.take(i as int) =~= hv);
    out.append("\r\n");
    out
}

/// Nothing follows the empty line: every request ends with "\r\n\r\n", so the server
/// never reads a stray byte as the start of the next request.
pub proof fn lemma_request_ends_with_empty_line(
    method: Seq<char>,
    url: Seq<char>,
    cseq: u32,
    headers: Seq<(Seq<char>, Seq<char>)>,
)
    ensures
        ({
            let t = request_text(method, url, cseq, headers);
            t.len() >= 4 && t.subrange(t.len() - 4, t.len() as int) == seq!['\r', '\n', '\r', '\n']
        }),
{
    reveal_strlit("\r\n");
    let t = request_text(method, url, cseq, headers);
    let crlf = "\r\n"@;
    let a = method + " "@ + url + " RTSP/1.0\r\n"@ + "CSeq: "@ + decimal(cseq as nat);
    if headers.len() == 0 {
        assert(t =~= a + crlf + crlf);
    } else {
        let hs = headers;
        let b = header_lines(hs.drop_last()) + hs.last().0 + ": "@ + hs.last().1;
        assert(header_lines(hs) == b + crlf);
        assert(t =~= (a + crlf + b) + crlf + crlf);
    }
}

} // verus!
