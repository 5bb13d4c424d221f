//! The 32-byte digest that protects every record.

use vstd::prelude::*;

verus! {

/// Length in bytes of a record's checksum.
pub const CHECKSUM_LEN: usize = 32;

/// The BLAKE3 digest of `data` in its default, unkeyed mode with 32 bytes of
/// output.
pub uninterp spec fn blake3_digest(data: Seq<u8>) -> Seq<u8>;

/// `blake3::hash`, with the bytes of the `Hash` it returns copied out: the
/// result is the BLAKE3 digest of `data`, and depends on nothing else.
#[verifier::external_body]
pub(crate) fn blake3_hash(data: &[u8]) -> (sum: [u8; 32])
    ensures
        sum@ == blake3_digest(data@),
{
    *blake3::hash(data).as_bytes()
}

/// The checksum of a record whose key and stored value are `data`.
pub fn checksum(data: &[u8]) -> (sum: Vec<u8>)
    ensures
        sum@ == blake3_digest(data@),
        sum@.len() == CHECKSUM_LEN,
{
    let digest = blake3_hash(data);
    let sum = vstd::slice::slice_to_vec(digest.as_slice());
    sum
}

} // verus!
