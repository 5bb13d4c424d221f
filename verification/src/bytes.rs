//! Byte strings: the keys and values of the store.

use vstd::prelude::*;

verus! {

/// An owned byte string.
pub type ByteString = Vec<u8>;

/// A borrowed byte string.
pub type ByteStr = [u8];

/// Whether two byte strings are equal.
pub fn bytes_eq(a: &ByteStr, b: &ByteStr) -> (same: bool)
    ensures
        same == (a@ == b@),
{
    if a.len() != b.len() {
        return false;
    }
    let mut i: usize = 0;
    while i < a.len()
        invariant
            i <= a@.len(),
            a@.len() == b@.len(),
            forall|j: int| 0 <= j < i ==> a@[j] == b@[j],
        decreases a@.len() - i,
    {
        if a[i] != b[i] {
            return false;
        }
        i += 1;
    }
    assert(a@ =~= b@);
    true
}

} // verus!
