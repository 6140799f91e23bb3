//! Little-endian 32-bit words inside byte regions, and small byte helpers
//! shared by the region parsers.

use vstd::prelude::*;

verus! {

/// The little-endian 32-bit word formed by the four bytes of `d` starting at `i`.
pub open spec fn le32_spec(d: Seq<u8>, i: int) -> u32
    recommends
        0 <= i,
        i + 4 <= d.len(),
{
    (d[i] as u32) | ((d[i + 1] as u32) << 8) | ((d[i + 2] as u32) << 16) | ((d[i
        + 3] as u32) << 24)
}

/// The four little-endian bytes of `x`, least significant first.
pub open spec fn le32_bytes(x: u32) -> Seq<u8> {
    seq![(x & 0xff) as u8, ((x >> 8) & 0xff) as u8, ((x >> 16) & 0xff) as u8, ((x >> 24) & 0xff) as u8]
}

/// Reading back the four bytes of `le32_bytes` yields the original word.
pub proof fn lemma_le32_roundtrip(x: u32)
    ensures
        le32_spec(le32_bytes(x), 0) == x,
{
    assert(((x & 0xff) as u8 as u32) | (((x >> 8) & 0xff) as u8 as u32) << 8 | (((x >> 16)
        & 0xff) as u8 as u32) << 16 | (((x >> 24) & 0xff) as u8 as u32) << 24 == x)
        by (bit_vector);
}

/// `le32_spec` reads only the four bytes at `i`, so it is stable under any
/// equal prefix.
pub proof fn lemma_le32_stable(d1: Seq<u8>, d2: Seq<u8>, i: int)
    requires
        0 <= i,
        i + 4 <= d1.len(),
        i + 4 <= d2.len(),
        forall|j: int| i <= j < i + 4 ==> d1[j] == d2[j],
    ensures
        le32_spec(d1, i) == le32_spec(d2, i),
{
}

/// Reads the little-endian `u32` stored at `off`.
pub fn read_u32_le(d: &Vec<u8>, off: usize) -> (r: u32)
    requires
        off + 4 <= d.len(),
    ensures
        r == le32_spec(d@, off as int),
{
    (d[off] as u32) | ((d[off + 1] as u32) << 8) | ((d[off + 2] as u32) << 16) | ((d[off
        + 3] as u32) << 24)
}

/// Appends the four little-endian bytes of `x`.
pub fn push_u32_le(out: &mut Vec<u8>, x: u32)
    ensures
        final(out)@ == old(out)@ + le32_bytes(x),
{
    proof {
        assert(x & 0xff < 256 && (x >> 8) & 0xff < 256 && (x >> 16) & 0xff < 256 && (x >> 24)
            & 0xff < 256) by (bit_vector);
    }
    out.push((x & 0xff) as u8);
    out.push(((x >> 8) & 0xff) as u8);
    out.push(((x >> 16) & 0xff) as u8);
    out.push(((x >> 24) & 0xff) as u8);
    proof {
        assert(out@ =~= old(out)@ + le32_bytes(x));
    }
}

/// Copies `len` bytes of `d` starting at `start` into a fresh vector.
pub fn copy_range(d: &Vec<u8>, start: usize, len: usize) -> (r: Vec<u8>)
    requires
        start + len <= d.len(),
    ensures
        r@ == d@.subrange(start as int, start as int + len as int),
{
    let mut out: Vec<u8> = Vec::new();
    let mut i: usize = 0;
    while i < len
        invariant
            i <= len,
            start + len <= d.len(),
            out@.len() == i,
            forall|j: int| 0 <= j < i ==> out@[j] == d@[start + j],
        decreases len - i,
    {
        out.push(d[start + i]);
        i = i + 1;
    }
    proof {
        assert(out@ =~= d@.subrange(start as int, start as int + len as int));
    }
    out
}

/// Copies a whole byte vector.
pub fn clone_bytes(d: &Vec<u8>) -> (r: Vec<u8>)
    ensures
        r@ == d@,
{
    let r = copy_range(d, 0, d.len());
    proof {
        assert(d@.subrange(0, d@.len() as int) =~= d@);
    }
    r
}

} // verus!
