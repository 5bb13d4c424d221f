//! The ways in which an operation on the store can fail.

use vstd::prelude::*;

verus! {

/// Why a record could not be produced, read or trusted.
#[derive(Clone, Copy, Debug, PartialEq, Eq, Structural)]
pub enum StoreError {
    /// The stream ended partway through a record's header or body.
    Truncation,
    /// A whole record was read, but its checksum does not match its contents.
    Corruption,
    /// Authenticated decryption or encryption failed, or the key material is
    /// not usable.
    Crypto,
    /// No record begins at the requested position.
    NotFound,
}

impl StoreError {
    /// A short description of the failure.
    pub fn message(&self) -> (text: &'static str)
        ensures
            text@ == (match *self {
                StoreError::Truncation => "log ends in the middle of a record"@,
                StoreError::Corruption => "record checksum does not match its contents"@,
                StoreError::Crypto => "encryption or decryption failed"@,
                StoreError::NotFound => "no record at this position"@,
            }),
    {
        match self {
            StoreError::Truncation => "log ends in the middle of a record",
            StoreError::Corruption => "record checksum does not match its contents",
            StoreError::Crypto => "encryption or decryption failed",
            StoreError::NotFound => "no record at this position",
        }
    }
}

} // verus!
