//! Byte-level helpers shared by the binary parsers: big endian integers and copies.

use vstd::prelude::*;

verus! {

/// The big endian 16 bit integer made of `hi` and `lo`.
pub open spec fn be16(hi: u8, lo: u8) -> u16 {
    (hi as int * 256 + lo as int) as u16
}

/// The big endian 32 bit integer made of four bytes, most significant first.
pub open spec fn be32(b0: u8, b1: u8, b2: u8, b3: u8) -> u32 {
    (b0 as int * 16777216 + b1 as int * 65536 + b2 as int * 256 + b3 as int) as u32
}

/// Reads the big endian u16 at `bytes[i..i + 2]`.
pub fn read_be16(bytes: &[u8], i: usize) -> (v: u16)
    requires
        i + 1 < bytes@.len(),
    ensures
        v == be16(bytes@[i as int], bytes@[i + 1]),
{
    (bytes[i] as u16) * 256 + (bytes[i + 1] as u16)
}

/// Reads the big endian u32 at `bytes[i..i + 4]`.
pub fn read_be32(bytes: &[u8], i: usize) -> (v: u32)
    requires
        i + 3 < bytes@.len(),
    ensures
        v == be32(bytes@[i as int], bytes@[i + 1], bytes@[i + 2], bytes@[i + 3]),
{
    (bytes[i] as u32) * 16777216 + (bytes[i + 1] as u32) * 65536 + (bytes[i + 2] as u32) * 256
        + (bytes[i + 3] as u32)
}

/// A copy of `bytes[lo..hi]`.
pub fn copy_range(bytes: &[u8], lo: usize, hi: usize) -> (v: Vec<u8>)
    requires
        lo <= hi <= bytes@.len(),
    ensures
        v@ == bytes@.subrange(lo as int, hi as int),
{
    let mut v: Vec<u8> = Vec::new();
    let mut i = lo;
    while i < hi
        invariant
            lo <= i <= hi <= bytes@.len(),
            v@ == bytes@.subrange(lo as int, i as int),
        decreases hi - i,
    {
        v.push(bytes[i]);
        i += 1;
        assert(v@ =~= bytes@.subrange(lo as int, i as int));
    }
    v
}

/// Appends `bytes[lo..]` to `v`.
pub fn append_from(v: &mut Vec<u8>, bytes: &[u8], lo: usize)
    requires
        lo <= bytes@.len(),
    ensures
        final(v)@ == old(v)@ + bytes@.subrange(lo as int, bytes@.len() as int),
{
    let mut i = lo;
    while i < bytes.len()
        invariant
            lo <= i <= bytes@.len(),
            v@ == old(v)@ + bytes@.subrange(lo as int, i as int),
        decreases bytes@.len() - i,
    {
        v.push(bytes[i]);
        i += 1;
        assert(v@ =~= old(v)@ + bytes@.subrange(lo as int, i as int));
    }
    assert(bytes@.subrange(lo as int, i as int) =~= bytes@.subrange(lo as int, bytes@.len() as int));
}

} // verus!
