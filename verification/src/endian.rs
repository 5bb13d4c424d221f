//! Little-endian encoding of the 32-bit length fields of a record.

use byteorder::{ByteOrder, LittleEndian};
use vstd::prelude::*;

verus! {

/// The four bytes of `n`, least significant first.
pub open spec fn le_u32_bytes(n: u32) -> Seq<u8> {
    seq![
        (n % 256) as u8,
        ((n / 256) % 256) as u8,
        ((n / 65536) % 256) as u8,
        ((n / 16777216) % 256) as u8,
    ]
}

/// The number whose little-endian encoding is the first four bytes of `bytes`.
pub open spec fn le_u32_value(bytes: Seq<u8>) -> int
    recommends
        bytes.len() >= 4,
{
    bytes[0] + 256 * bytes[1] + 65536 * bytes[2] + 16777216 * bytes[3]
}

/// Decoding undoes encoding.
pub proof fn lemma_le_u32_value_of_bytes(n: u32)
    ensures
        le_u32_bytes(n).len() == 4,
        le_u32_value(le_u32_bytes(n)) == n,
{
}

/// A decoded length is a 32-bit number.
pub proof fn lemma_le_u32_value_bounds(bytes: Seq<u8>)
    ensures
        0 <= le_u32_value(bytes) <= u32::MAX,
{
}

/// Encoding undoes decoding: four bytes are the encoding of the number that
/// they decode to.
pub proof fn lemma_le_u32_bytes_of_value(bytes: Seq<u8>)
    requires
        bytes.len() == 4,
    ensures
        le_u32_bytes(le_u32_value(bytes) as u32) == bytes,
{
    let value = le_u32_value(bytes);
    let (b0, b1, b2, b3) = (bytes[0] as int, bytes[1] as int, bytes[2] as int, bytes[3] as int);
    assert(value % 256 == b0 && value / 256 == b1 + 256 * b2 + 65536 * b3) by {
        lemma_digit(b0, b1 + 256 * b2 + 65536 * b3);
    }
    assert((value / 256) % 256 == b1 && value / 65536 == b2 + 256 * b3) by {
        lemma_digit(b1, b2 + 256 * b3);
        lemma_digit(b0 + 256 * b1, b2 + 256 * b3);
    }
    assert((value / 65536) % 256 == b2 && value / 16777216 == b3) by {
        lemma_digit(b2, b3);
        lemma_digit(b0 + 256 * b1 + 65536 * b2, b3);
    }
    assert(le_u32_bytes(value as u32) =~= bytes);
}

/// A number below a power of 256, plus a multiple of that power, splits
/// at that power into the two again.
proof fn lemma_digit(low: int, high: int)
    requires
        0 <= high,
    ensures
        0 <= low < 256 ==> (low + 256 * high) % 256 == low && (low + 256 * high) / 256 == high,
        0 <= low < 65536 ==> (low + 65536 * high) / 65536 == high,
        0 <= low < 16777216 ==> (low + 16777216 * high) / 16777216 == high,
{
}

/// `byteorder::LittleEndian::write_u32` into a fresh four-byte buffer: the
/// buffer then holds the little-endian encoding of `n`.
#[verifier::external_body]
pub(crate) fn u32_to_le(n: u32) -> (bytes: [u8; 4])
    ensures
        bytes@ == le_u32_bytes(n),
{
    let mut bytes = [0u8; 4];
    LittleEndian::write_u32(&mut bytes, n);
    bytes
}

/// `byteorder::LittleEndian::read_u32`: the number that the first four bytes
/// of `bytes` encode, least significant byte first. The outside function
/// panics on a shorter buffer, which the precondition rules out.
#[verifier::external_body]
pub(crate) fn u32_from_le(bytes: &[u8]) -> (n: u32)
    requires
        bytes@.len() >= 4,
    ensures
        n == le_u32_value(bytes@),
{
    LittleEndian::read_u32(bytes)
}

} // verus!
