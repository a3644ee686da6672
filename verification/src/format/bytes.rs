use vstd::prelude::*;
use vstd::bytes::{
    spec_u32_from_le_bytes,
    spec_u32_to_le_bytes,
    spec_u64_from_le_bytes,
    spec_u64_to_le_bytes,
    u32_from_le_bytes,
    u32_to_le_bytes,
    u64_from_le_bytes,
    u64_to_le_bytes,
};
use crate::format::stream::append;

verus! {

/// The little-endian `u32` stored at byte `p`.
pub open spec fn u32_at(d: Seq<u8>, p: int) -> u32 {
    spec_u32_from_le_bytes(d.subrange(p, p + 4))
}

/// The little-endian `u64` stored at byte `p`.
pub open spec fn u64_at(d: Seq<u8>, p: int) -> u64 {
    spec_u64_from_le_bytes(d.subrange(p, p + 8))
}

/// The four little-endian bytes of a `u32`.
pub open spec fn le32(x: u32) -> Seq<u8> {
    spec_u32_to_le_bytes(x)
}

/// The eight little-endian bytes of a `u64`.
pub open spec fn le64(x: u64) -> Seq<u8> {
    spec_u64_to_le_bytes(x)
}

/// One byte for a flag: 1 for set, 0 for clear.
pub open spec fn flag_byte(b: bool) -> u8 {
    if b {
        1
    } else {
        0
    }
}

pub proof fn lemma_le32_roundtrip()
    ensures
        forall|x: u32| #[trigger] le32(x).len() == 4,
        forall|x: u32| spec_u32_from_le_bytes(#[trigger] le32(x)) == x,
{
    vstd::bytes::lemma_auto_spec_u32_to_from_le_bytes();
    assert forall|x: u32| spec_u32_from_le_bytes(#[trigger] le32(x)) == x by {
        assert(spec_u32_to_le_bytes(x).len() == 4);
    }
}

pub proof fn lemma_le64_roundtrip()
    ensures
        forall|x: u64| #[trigger] le64(x).len() == 8,
        forall|x: u64| spec_u64_from_le_bytes(#[trigger] le64(x)) == x,
{
    vstd::bytes::lemma_auto_spec_u64_to_from_le_bytes();
}

/// A fresh copy of `d[p..p + n]`.
pub fn copy_range(d: &[u8], p: usize, n: usize) -> (v: Vec<u8>)
    requires
        p + n <= d@.len(),
    ensures
        v@ == d@.subrange(p as int, p + n),
{
    let mut v: Vec<u8> = Vec::new();
    let len = d.len();
    for i in 0..n
        invariant
            len == d@.len(),
            p + n <= d@.len(),
            v@ == d@.subrange(p as int, p + i),
    {
        v.push(d[p + i]);
        assert(d@.subrange(p as int, p + i + 1) =~= d@.subrange(p as int, p + i).push(d@[p + i]));
    }
    v
}

/// Reads the little-endian `u32` at byte `p`.
pub fn read_u32_at(d: &[u8], p: usize) -> (x: u32)
    requires
        p + 4 <= d@.len(),
    ensures
        x == u32_at(d@, p as int),
{
    let v = copy_range(d, p, 4);
    u32_from_le_bytes(v.as_slice())
}

/// Reads the little-endian `u64` at byte `p`.
pub fn read_u64_at(d: &[u8], p: usize) -> (x: u64)
    requires
        p + 8 <= d@.len(),
    ensures
        x == u64_at(d@, p as int),
{
    let v = copy_range(d, p, 8);
    u64_from_le_bytes(v.as_slice())
}

/// Appends the four little-endian bytes of `x`.
pub fn push_u32(out: &mut Vec<u8>, x: u32)
    ensures
        final(out)@ == old(out)@ + le32(x),
{
    append(out, &u32_to_le_bytes(x));
}

/// Appends the eight little-endian bytes of `x`.
pub fn push_u64(out: &mut Vec<u8>, x: u64)
    ensures
        final(out)@ == old(out)@ + le64(x),
{
    append(out, &u64_to_le_bytes(x));
}

/// Appends every byte of `src`.
pub fn push_slice(out: &mut Vec<u8>, src: &[u8])
    ensures
        final(out)@ == old(out)@ + src@,
{
    let n = src.len();
    for i in 0..n
        invariant
            n == src@.len(),
            out@ == old(out)@ + src@.take(i as int),
    {
        out.push(src[i]);
        assert(src@.take(i + 1) =~= src@.take(i as int).push(src@[i as int]));
    }
    assert(src@.take(n as int) =~= src@);
}

} // verus!
