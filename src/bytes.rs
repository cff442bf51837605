//! Little-endian integers inside byte buffers.
use vstd::bytes::{spec_u64_from_le_bytes, spec_u64_to_le_bytes, u64_from_le_bytes, u64_to_le_bytes};
use vstd::prelude::*;

verus! {

/// The eight bytes of `data` starting at `pos`, read as a little-endian integer.
pub open spec fn le64_at(data: Seq<u8>, pos: int) -> u64 {
    spec_u64_from_le_bytes(data.subrange(pos, pos + 8))
}

/// The little-endian encoding of `x`.
pub open spec fn le64(x: u64) -> Seq<u8> {
    spec_u64_to_le_bytes(x)
}

pub proof fn lemma_le64_len(x: u64)
    ensures
        le64(x).len() == 8,
        spec_u64_from_le_bytes(le64(x)) == x,
{
    vstd::bytes::lemma_auto_spec_u64_to_from_le_bytes();
}

/// Reading back an encoded integer from the middle of a buffer gives the integer.
pub proof fn lemma_le64_at_concat(a: Seq<u8>, x: u64, b: Seq<u8>)
    ensures
        le64_at(a + le64(x) + b, a.len() as int) == x,
{
    lemma_le64_len(x);
    let d = a + le64(x) + b;
    assert(d.subrange(a.len() as int, a.len() + 8int) =~= le64(x));
}

/// Reads the little-endian integer at `pos`.
pub fn read_u64(data: &[u8], pos: usize) -> (r: u64)
    requires
        pos + 8 <= data@.len(),
    ensures
        r == le64_at(data@, pos as int),
{
    let _n = data.len();
    let s = vstd::slice::slice_subrange(data, pos, pos + 8);
    u64_from_le_bytes(s)
}

/// Appends the little-endian encoding of `x`.
pub fn push_u64(out: &mut Vec<u8>, x: u64)
    ensures
        final(out)@ == old(out)@ + le64(x),
{
    let b = u64_to_le_bytes(x);
    let mut i: usize = 0;
    while i < 8
        invariant
            b@ == le64(x),
            b@.len() == 8,
            0 <= i <= 8,
            out@ == old(out)@ + b@.subrange(0, i as int),
        decreases 8 - i,
    {
        out.push(b[i]);
        assert(b@.subrange(0, i + 1) =~= b@.subrange(0, i as int).push(b@[i as int]));
        i += 1;
    }
    assert(b@.subrange(0, 8) =~= b@);
}

/// Appends all of `src`.
pub fn push_all(out: &mut Vec<u8>, src: &[u8])
    ensures
        final(out)@ == old(out)@ + src@,
{
    let mut i: usize = 0;
    while i < src.len()
        invariant
            0 <= i <= src@.len(),
            out@ == old(out)@ + src@.subrange(0, i as int),
        decreases src@.len() - i,
    {
        out.push(src[i]);
        assert(src@.subrange(0, i + 1) =~= src@.subrange(0, i as int).push(src@[i as int]));
        i += 1;
    }
    assert(src@.subrange(0, src@.len() as int) =~= src@);
}

/// Copies `data[begin..end]` into a new buffer.
pub fn copy_range(data: &[u8], begin: usize, end: usize) -> (r: Vec<u8>)
    requires
        begin <= end <= data@.len(),
    ensures
        r@ == data@.subrange(begin as int, end as int),
{
    let mut r: Vec<u8> = Vec::new();
    let mut i: usize = begin;
    while i < end
        invariant
            begin <= i <= end <= data@.len(),
            r@ == data@.subrange(begin as int, i as int),
        decreases end - i,
    {
        r.push(data[i]);
        assert(data@.subrange(begin as int, i + 1) =~= data@.subrange(begin as int, i as int).push(data@[i as int]));
        i += 1;
    }
    r
}

/// Byte-for-byte equality.
pub fn bytes_eq(a: &[u8], b: &[u8]) -> (r: bool)
    ensures
        r == (a@ == b@),
{
    if a.len() != b.len() {
        return false;
    }
    let mut i: usize = 0;
    while i < a.len()
        invariant
            a@.len() == b@.len(),
            0 <= i <= a@.len(),
            forall|j: int| 0 <= j < i ==> a@[j] == b@[j],
        decreases a@.len() - i,
    {
        if a[i] != b[i] {
            return false;
        }
        i += 1;
    }
    assert(a@ =~= b@);
    true
}

} // verus!
