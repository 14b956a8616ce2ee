//! `ByteCursor`: bytes that have arrived on a connection, read from the front.
//! The framing code reads lines and exact byte counts from it, as it would from a
//! buffered socket.

use vstd::prelude::*;

use crate::bytes::copy_range;
use crate::error::{Error, Result};

verus! {

/// `std::io::Error` for a read that met the end of the data (kind `UnexpectedEof`).
/// Nothing is claimed of the value.
#[verifier::external_body]
fn unexpected_eof() -> std::io::Error {
    std::io::Error::from(std::io::ErrorKind::UnexpectedEof)
}

/// `std::io::Error::new` for a line that is not valid UTF-8 (kind `InvalidData`), as
/// `BufRead::read_line` reports it. Nothing is claimed of the value.
#[verifier::external_body]
fn invalid_utf8() -> std::io::Error {
    std::io::Error::new(std::io::ErrorKind::InvalidData, "stream did not contain valid UTF-8")
}

/// `std::str::from_utf8`: the text whose UTF-8 encoding is `bytes`, when the bytes are
/// valid UTF-8.
#[verifier::external_body]
fn utf8_text(bytes: &[u8]) -> (r: Option<&str>)
    ensures
        r is Some <==> vstd::utf8::valid_utf8(bytes@),
        r matches Some(s) ==> vstd::utf8::encode_utf8(s@) == bytes@,
{
    match std::str::from_utf8(bytes) {
        Ok(s) => Some(s),
        Err(_) => None,
    }
}

/// The index of the first byte `b` in `data` at or after `i`, or `data.len()`.
pub open spec fn find_byte_from(data: Seq<u8>, b: u8, i: int) -> int
    decreases data.len() - i,
{
    if 0 <= i < data.len() {
        if data[i] == b {
            i
        } else {
            find_byte_from(data, b, i + 1)
        }
    } else {
        data.len() as int
    }
}

pub proof fn lemma_find_byte_from(data: Seq<u8>, b: u8, i: int)
    requires
        0 <= i <= data.len(),
    ensures
        i <= find_byte_from(data, b, i) <= data.len(),
    decreases data.len() - i,
{
    if i < data.len() && data[i] != b {
        lemma_find_byte_from(data, b, i + 1);
    }
}

/// Where the line that starts at `pos` ends: just after its '\n', or at the end of
/// the data when no '\n' follows.
pub open spec fn line_end(data: Seq<u8>, pos: int) -> int {
    let k = find_byte_from(data, 10, pos);
    if k < data.len() {
        k + 1
    } else {
        k
    }
}

/// The text of the line `bytes`, when they are valid UTF-8.
pub open spec fn line_text(bytes: Seq<u8>) -> Option<Seq<char>> {
    if vstd::utf8::valid_utf8(bytes) {
        Some(vstd::utf8::decode_utf8(bytes))
    } else {
        None
    }
}

/// What a cursor holds: all the data, and how much of it has been read.
pub struct CursorView {
    pub data: Seq<u8>,
    pub pos: nat,
}

/// Bytes, read from the front.
pub struct ByteCursor {
    data: Vec<u8>,
    pos: usize,
}

impl View for ByteCursor {
    type V = CursorView;

    closed spec fn view(&self) -> CursorView {
        CursorView { data: self.data@, pos: self.pos as nat }
    }
}

impl ByteCursor {
    #[verifier::type_invariant]
    closed spec fn inv(&self) -> bool {
        self.pos <= self.data@.len()
    }

    /// A cursor at the start of a copy of `bytes`.
    pub fn new(bytes: &[u8]) -> (c: Self)
        ensures
            c@.data == bytes@,
            c@.pos == 0,
    {
        ByteCursor { data: copy_range(bytes, 0, bytes.len()), pos: 0 }
    }

    /// How many bytes have been read.
    pub fn position(&self) -> (p: usize)
        ensures
            p == self@.pos,
            p <= self@.data.len(),
    {
        proof {
            use_type_invariant(self);
        }
        self.pos
    }

    /// The bytes that have not been read yet.
    pub fn remaining(&self) -> (v: Vec<u8>)
        ensures
            v@ == self@.data.subrange(self@.pos as int, self@.data.len() as int),
    {
        proof {
            use_type_invariant(self);
        }
        copy_range(self.data.as_slice(), self.pos, self.data.len())
    }

    /// Reads exactly `n` bytes. When fewer are left, all of them are consumed and an
    /// `Io` error is returned.
    pub fn read_exact(&mut self, n: usize) -> (r: Result<Vec<u8>>)
        ensures
            final(self)@.data == old(self)@.data,
            final(self)@.pos <= final(self)@.data.len(),
            old(self)@.pos + n <= old(self)@.data.len() ==> (r matches Ok(v) && v@
                == old(self)@.data.subrange(old(self)@.pos as int, old(self)@.pos + n) && final(self)@.pos
                == old(self)@.pos + n),
            old(self)@.pos + n > old(self)@.data.len() ==> (r matches Err(Error::Io(_))
                && final(self)@.pos == old(self)@.data.len()),
    {
        proof {
            use_type_invariant(&*self);
        }
        let len = self.data.len();
        if n > len - self.pos {
            self.pos = len;
            return Err(Error::Io(unexpected_eof()));
        }
        let v = copy_range(self.data.as_slice(), self.pos, self.pos + n);
        self.pos = self.pos + n;
        Ok(v)
    }

    /// Reads one line, through its '\n' or to the end of the data. `None` when no byte
    /// is left; an `Io` error when the line is not valid UTF-8.
    pub fn read_line(&mut self) -> (r: Result<Option<String>>)
        ensures
            final(self)@.data == old(self)@.data,
            final(self)@.pos <= final(self)@.data.len(),
            final(self)@.pos == line_end(old(self)@.data, old(self)@.pos as int),
            old(self)@.pos == old(self)@.data.len() ==> r matches Ok(None),
            old(self)@.pos < old(self)@.data.len() ==> {
                let bytes = old(self)@.data.subrange(
                    old(self)@.pos as int,
                    line_end(old(self)@.data, old(self)@.pos as int),
                );
                match line_text(bytes) {
                    Some(t) => (r matches Ok(Some(s)) && s@ == t),
                    None => r matches Err(Error::Io(_)),
                }
            },
    {
        proof {
            use_type_invariant(&*self);
        }
        let len = self.data.len();
        let start = self.pos;
        let mut i = start;
        proof {
            lemma_find_byte_from(self.data@, 10, start as int);
        }
        while i < len && self.data[i] != 10
            invariant
                start <= i <= len == self.data@.len(),
                find_byte_from(self.data@, 10, start as int) == find_byte_from(
                    self.data@,
                    10,
                    i as int,
                ),
            decreases len - i,
        {
            i += 1;
        }
        let end = if i < len {
            i + 1
        } else {
            i
        };
        if end == start {
            return Ok(None);
        }
        let bytes = copy_range(self.data.as_slice(), start, end);
        self.pos = end;
        match utf8_text(bytes.as_slice()) {
            Some(s) => {
                proof {
                    vstd::utf8::encode_utf8_decode_utf8(s@);
                }
                Ok(Some(s.to_owned()))
            },
            None => Err(Error::Io(invalid_utf8())),
        }
    }
}

} // verus!
