//! An append-only key-value store whose values are encrypted at rest and whose
//! records carry a checksum.
//!
//! The store is a byte log of records laid end to end and an index from each
//! key to the offset of its latest record. This crate holds the record format,
//! the scan that rebuilds the index, positional reads and the append path, all
//! over the log's bytes in memory; reading and writing the backing file is the
//! caller's part.

pub mod bytes;
pub mod digest;
pub mod encrypter;
pub mod endian;
pub mod error;
pub mod index;
pub mod log;
pub mod record;
pub mod store;

pub use crate::bytes::{ByteStr, ByteString};
pub use crate::encrypter::Encrypter;
pub use crate::error::StoreError;
pub use crate::index::Index;
pub use crate::log::Log;
pub use crate::record::{Decoded, KeyValuePair, Record};
pub use crate::store::ActionKV;
