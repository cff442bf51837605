//! Content digests and slab checksums.
use blake2::digest::consts::{U32, U8};
use blake2::{Blake2b, Digest};
use vstd::prelude::*;

verus! {

/// The 256-bit BLAKE2b digest of a byte sequence.
pub uninterp spec fn hash256_of(s: Seq<u8>) -> Seq<u8>;

/// The 64-bit BLAKE2b checksum of a byte sequence, read little-endian.
pub uninterp spec fn hash64_of(s: Seq<u8>) -> u64;

/// Relies on blake2's `Blake2b<U32>` through `Digest::digest`: a 32-byte
/// digest that depends on the input bytes alone.
#[verifier::external_body]
pub(crate) fn hash_256(data: &[u8]) -> (r: Vec<u8>)
    ensures
        r@ == hash256_of(data@),
        r@.len() == 32,
{
    Blake2b::<U32>::digest(data).to_vec()
}

/// Relies on blake2's `Blake2b<U8>` through `Digest::digest`: an 8-byte
/// digest that depends on the input bytes alone, taken as a little-endian integer.
#[verifier::external_body]
pub(crate) fn hash_64(data: &[u8]) -> (r: u64)
    ensures
        r == hash64_of(data@),
{
    let d = Blake2b::<U8>::digest(data);
    u64::from_le_bytes(d.into())
}

} // verus!
