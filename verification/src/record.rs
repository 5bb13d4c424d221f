//! The record format: how one key and its encrypted value lie in the log, and
//! how they are written and read back.
//!
//! A record is, in this order, a 32-byte checksum, a 12-byte nonce, the key's
//! length and the stored value's length as little-endian 32-bit numbers, the
//! key in plaintext and the value as ciphertext. The checksum covers the key
//! followed by the ciphertext.

use crate::bytes::{bytes_eq, ByteString};
use crate::digest::{blake3_digest, checksum, CHECKSUM_LEN};
use crate::encrypter::{
    aes256_gcm_open, aes256_gcm_seal, bytes_result_is, spec_decrypt, spec_encrypt, Encrypter,
    NONCE_LEN, TAG_LEN,
};
use crate::endian::{
    le_u32_bytes, le_u32_value, lemma_le_u32_bytes_of_value, lemma_le_u32_value_bounds,
    lemma_le_u32_value_of_bytes, u32_from_le, u32_to_le,
};
use crate::error::StoreError;
use vstd::prelude::*;
use vstd::slice::slice_to_vec;

verus! {

/// Length in bytes of a record's fixed part: checksum, nonce and two lengths.
pub const HEADER_LEN: usize = 52;

/// A key with its decrypted value. Its view is the pair of their bytes.
#[derive(Debug, PartialEq, Eq)]
pub struct KeyValuePair {
    pub key: ByteString,
    pub value: ByteString,
}

impl View for KeyValuePair {
    type V = (Seq<u8>, Seq<u8>);

    open spec fn view(&self) -> (Seq<u8>, Seq<u8>) {
        (self.key@, self.value@)
    }
}

/// The view of a record: its four fields as byte sequences.
pub ghost struct RecordView {
    pub checksum: Seq<u8>,
    pub nonce: Seq<u8>,
    pub key: Seq<u8>,
    pub value: Seq<u8>,
}

impl RecordView {
    /// Whether the fields have lengths that the format can hold.
    pub open spec fn well_formed(self) -> bool {
        &&& self.checksum.len() == CHECKSUM_LEN
        &&& self.nonce.len() == NONCE_LEN
        &&& self.key.len() <= u32::MAX
        &&& self.value.len() <= u32::MAX
    }

    /// Number of bytes that the record takes in the log.
    pub open spec fn len(self) -> nat {
        HEADER_LEN as nat + self.key.len() + self.value.len()
    }

    /// The record as it lies in the log.
    pub open spec fn bytes(self) -> Seq<u8> {
        self.checksum + self.nonce + le_u32_bytes(self.key.len() as u32) + le_u32_bytes(
            self.value.len() as u32,
        ) + self.key + self.value
    }

    /// Whether the checksum is the digest of the key followed by the stored
    /// value.
    pub open spec fn intact(self) -> bool {
        self.checksum == blake3_digest(self.key + self.value)
    }
}

/// One record of the log, its value still encrypted.
#[derive(Debug, PartialEq, Eq)]
pub struct Record {
    pub checksum: Vec<u8>,
    pub nonce: Vec<u8>,
    pub key: Vec<u8>,
    pub value: Vec<u8>,
}

impl View for Record {
    type V = RecordView;

    open spec fn view(&self) -> RecordView {
        RecordView {
            checksum: self.checksum@,
            nonce: self.nonce@,
            key: self.key@,
            value: self.value@,
        }
    }
}

/// The view of what lies at the head of a stream.
pub ghost enum DecodedView {
    /// The stream is empty: the log ended at a record boundary.
    EndOfLog,
    /// A record whose `len` bytes open the stream.
    Record { key: Seq<u8>, value: Seq<u8>, len: nat },
}

/// What decoding found at the head of a stream.
#[derive(Debug, PartialEq, Eq)]
pub enum Decoded {
    /// The stream is empty: the log ended at a record boundary.
    EndOfLog,
    /// A record that takes the first `len` bytes of the stream.
    Record { pair: KeyValuePair, len: usize },
}

impl View for Decoded {
    type V = DecodedView;

    open spec fn view(&self) -> DecodedView {
        match *self {
            Decoded::EndOfLog => DecodedView::EndOfLog,
            Decoded::Record { pair, len } => DecodedView::Record {
                key: pair.key@,
                value: pair.value@,
                len: len as nat,
            },
        }
    }
}

/// The record at the head of `stream`: `None` for an empty stream, and
/// `Truncation` for one that ends before the record does.
pub open spec fn spec_parse(stream: Seq<u8>) -> Result<Option<RecordView>, StoreError> {
    if stream.len() == 0 {
        Ok(None)
    } else if stream.len() < HEADER_LEN {
        Err(StoreError::Truncation)
    } else {
        let key_len = le_u32_value(stream.subrange(44, 48));
        let value_len = le_u32_value(stream.subrange(48, 52));
        if stream.len() < HEADER_LEN + key_len + value_len {
            Err(StoreError::Truncation)
        } else {
            Ok(
                Some(
                    RecordView {
                        checksum: stream.subrange(0, 32),
                        nonce: stream.subrange(32, 44),
                        key: stream.subrange(52, 52 + key_len),
                        value: stream.subrange(52 + key_len, 52 + key_len + value_len),
                    },
                ),
            )
        }
    }
}

/// The record that holds `value` encrypted under `cipher_key` and `nonce`.
pub open spec fn spec_seal(
    cipher_key: Seq<u8>,
    nonce: Seq<u8>,
    key: Seq<u8>,
    value: Seq<u8>,
) -> RecordView {
    let sealed = aes256_gcm_seal(cipher_key, nonce, value);
    RecordView { checksum: blake3_digest(key + sealed), nonce, key, value: sealed }
}

/// The key and plaintext value of a record: `Corruption` where the checksum
/// does not match, else `Crypto` where the value does not decrypt.
pub open spec fn spec_open(record: RecordView, cipher_key: Seq<u8>) -> Result<
    (Seq<u8>, Seq<u8>),
    StoreError,
> {
    if !record.intact() {
        Err(StoreError::Corruption)
    } else {
        match spec_decrypt(cipher_key, record.value, record.nonce) {
            Ok(plaintext) => Ok((record.key, plaintext)),
            Err(e) => Err(e),
        }
    }
}

/// What `decode` returns for a stream and a cipher key.
pub open spec fn spec_decode(stream: Seq<u8>, cipher_key: Seq<u8>) -> Result<
    DecodedView,
    StoreError,
> {
    match spec_parse(stream) {
        Err(e) => Err(e),
        Ok(None) => Ok(DecodedView::EndOfLog),
        Ok(Some(record)) => match spec_open(record, cipher_key) {
            Err(e) => Err(e),
            Ok((key, value)) => Ok(DecodedView::Record { key, value, len: record.len() }),
        },
    }
}

/// What `encode_with_nonce` returns for a key, a value, a nonce and a cipher
/// key.
pub open spec fn spec_encode(
    key: Seq<u8>,
    value: Seq<u8>,
    nonce: Seq<u8>,
    cipher_key: Seq<u8>,
) -> Result<Seq<u8>, StoreError> {
    match spec_encrypt(cipher_key, value, nonce) {
        Ok(_) => Ok(spec_seal(cipher_key, nonce, key, value).bytes()),
        Err(e) => Err(e),
    }
}

/// Parsing undoes serialising, whatever follows the record in the stream.
pub proof fn lemma_parse_bytes(record: RecordView, rest: Seq<u8>)
    requires
        record.well_formed(),
    ensures
        record.bytes().len() == record.len(),
        spec_parse(record.bytes() + rest) == Ok::<Option<RecordView>, StoreError>(Some(record)),
{
    let stream = record.bytes() + rest;
    let key_len = record.key.len() as u32;
    let value_len = record.value.len() as u32;
    lemma_le_u32_value_of_bytes(key_len);
    lemma_le_u32_value_of_bytes(value_len);
    assert(stream.subrange(44, 48) =~= le_u32_bytes(key_len));
    assert(stream.subrange(48, 52) =~= le_u32_bytes(value_len));
    assert(stream.subrange(0, 32) =~= record.checksum);
    assert(stream.subrange(32, 44) =~= record.nonce);
    assert(stream.subrange(52, 52 + key_len) =~= record.key);
    assert(stream.subrange(52 + key_len, 52 + key_len + value_len) =~= record.value);
}

/// A parsed record is well formed and lies within the stream.
pub proof fn lemma_parse_well_formed(stream: Seq<u8>)
    ensures
        spec_parse(stream) matches Ok(Some(record)) ==> {
            &&& record.well_formed()
            &&& HEADER_LEN <= record.len() <= stream.len()
        },
{
    if stream.len() >= HEADER_LEN {
        lemma_le_u32_value_bounds(stream.subrange(44, 48));
        lemma_le_u32_value_bounds(stream.subrange(48, 52));
    }
}

/// Serialising undoes parsing: a stream begins with the bytes of the record
/// that is read from it.
pub proof fn lemma_bytes_of_parsed(stream: Seq<u8>)
    ensures
        spec_parse(stream) matches Ok(Some(record)) ==> stream.subrange(0, record.len() as int)
            == record.bytes(),
{
    if let Ok(Some(record)) = spec_parse(stream) {
        lemma_parse_well_formed(stream);
        lemma_le_u32_bytes_of_value(stream.subrange(44, 48));
        lemma_le_u32_bytes_of_value(stream.subrange(48, 52));
        assert(stream.subrange(0, record.len() as int) =~= record.bytes());
    }
}

/// A record at the head of a stream is read from its own bytes alone: what
/// follows it in the stream does not matter.
pub proof fn lemma_parse_extended(stream: Seq<u8>, more: Seq<u8>)
    requires
        spec_parse(stream) matches Ok(Some(_)),
    ensures
        spec_parse(stream + more) == spec_parse(stream),
{
    let longer = stream + more;
    lemma_parse_well_formed(stream);
    assert(longer.subrange(44, 48) =~= stream.subrange(44, 48));
    assert(longer.subrange(48, 52) =~= stream.subrange(48, 52));
    let key_len = le_u32_value(stream.subrange(44, 48));
    let value_len = le_u32_value(stream.subrange(48, 52));
    assert(longer.subrange(0, 32) =~= stream.subrange(0, 32));
    assert(longer.subrange(32, 44) =~= stream.subrange(32, 44));
    assert(longer.subrange(52, 52 + key_len) =~= stream.subrange(52, 52 + key_len));
    assert(longer.subrange(52 + key_len, 52 + key_len + value_len) =~= stream.subrange(
        52 + key_len,
        52 + key_len + value_len,
    ));
}

impl Record {
    /// The record for `key` and an already encrypted value, with its
    /// checksum computed.
    pub fn new(nonce: &[u8], key: &[u8], sealed: Vec<u8>) -> (record: Record)
        ensures
            record@ == (RecordView {
                checksum: blake3_digest(key@ + sealed@),
                nonce: nonce@,
                key: key@,
                value: sealed@,
            }),
            record@.intact(),
            record@.checksum.len() == CHECKSUM_LEN,
    {
        let mut covered = slice_to_vec(key);
        covered.extend_from_slice(sealed.as_slice());
        assert(covered@ =~= key@ + sealed@);
        let sum = checksum(covered.as_slice());
        Record { checksum: sum, nonce: slice_to_vec(nonce), key: slice_to_vec(key), value: sealed }
    }

    /// The record as it lies in the log.
    pub fn to_bytes(&self) -> (bytes: Vec<u8>)
        requires
            self@.well_formed(),
        ensures
            bytes@ == self@.bytes(),
            bytes@.len() == self@.len(),
    {
        let key_len = u32_to_le(self.key.len() as u32);
        let value_len = u32_to_le(self.value.len() as u32);
        let mut bytes: Vec<u8> = Vec::new();
        bytes.extend_from_slice(self.checksum.as_slice());
        bytes.extend_from_slice(self.nonce.as_slice());
        bytes.extend_from_slice(key_len.as_slice());
        bytes.extend_from_slice(value_len.as_slice());
        bytes.extend_from_slice(self.key.as_slice());
        bytes.extend_from_slice(self.value.as_slice());
        assert(bytes@ =~= self@.bytes());
        bytes
    }

    /// Reads the record at the head of `stream` without checking or
    /// decrypting it. An empty stream holds no record; one that ends inside
    /// the header or the body is truncated.
    pub fn parse(stream: &[u8]) -> (r: Result<Option<Record>, StoreError>)
        ensures
            match r {
                Ok(Some(record)) => spec_parse(stream@) == Ok::<Option<RecordView>, StoreError>(
                    Some(record@),
                ),
                Ok(None) => spec_parse(stream@) == Ok::<Option<RecordView>, StoreError>(None),
                Err(e) => spec_parse(stream@) == Err::<Option<RecordView>, StoreError>(e),
            },
            r matches Ok(Some(record)) ==> record@.well_formed() && record@.len() <= stream@.len(),
    {
        if stream.len() == 0 {
            return Ok(None);
        }
        if stream.len() < HEADER_LEN {
            return Err(StoreError::Truncation);
        }
        let key_len = u32_from_le(&stream[44..48]);
        let value_len = u32_from_le(&stream[48..52]);
        let total: u64 = HEADER_LEN as u64 + key_len as u64 + value_len as u64;
        if (stream.len() as u64) < total {
            return Err(StoreError::Truncation);
        }
        let key_end: usize = HEADER_LEN + key_len as usize;
        let end: usize = key_end + value_len as usize;
        Ok(
            Some(
                Record {
                    checksum: slice_to_vec(&stream[0..32]),
                    nonce: slice_to_vec(&stream[32..44]),
                    key: slice_to_vec(&stream[52..key_end]),
                    value: slice_to_vec(&stream[key_end..end]),
                },
            ),
        )
    }

    /// Checks the record against its checksum and decrypts its value.
    pub fn open(&self, cipher: &Encrypter) -> (r: Result<KeyValuePair, StoreError>)
        ensures
            match r {
                Ok(pair) => spec_open(self@, cipher@) == Ok::<(Seq<u8>, Seq<u8>), StoreError>(
                    pair@,
                ),
                Err(e) => spec_open(self@, cipher@) == Err::<(Seq<u8>, Seq<u8>), StoreError>(e),
            },
    {
        let mut covered = self.key.clone();
        covered.extend_from_slice(self.value.as_slice());
        assert(covered@ =~= self.key@ + self.value@);
        let sum = checksum(covered.as_slice());
        if !bytes_eq(sum.as_slice(), self.checksum.as_slice()) {
            return Err(StoreError::Corruption);
        }
        match cipher.decrypt(self.value.as_slice(), self.nonce.as_slice()) {
            Ok(value) => Ok(KeyValuePair { key: self.key.clone(), value }),
            Err(e) => Err(e),
        }
    }
}

/// Whether `key` and `value` fit the 32-bit length fields of a record, the
/// value with its authentication tag.
pub open spec fn fits_record(key: Seq<u8>, value: Seq<u8>) -> bool {
    key.len() <= u32::MAX && value.len() + TAG_LEN <= u32::MAX
}

/// Number of bytes of the record that holds `key` and `value`.
pub open spec fn encoded_len(key: Seq<u8>, value: Seq<u8>) -> nat {
    HEADER_LEN as nat + key.len() + value.len() + TAG_LEN as nat
}

/// Whether `bytes` is a record that holds `key` and `value` encrypted under
/// `cipher_key` and some nonce: it has the record's length and decodes to
/// the pair again.
pub open spec fn is_record_of(
    bytes: Seq<u8>,
    key: Seq<u8>,
    value: Seq<u8>,
    cipher_key: Seq<u8>,
) -> bool {
    &&& exists|nonce: Seq<u8>|
        nonce.len() == NONCE_LEN && #[trigger] spec_encode(key, value, nonce, cipher_key) == Ok::<
            Seq<u8>,
            StoreError,
        >(bytes)
    &&& bytes.len() == encoded_len(key, value)
    &&& spec_decode(bytes, cipher_key) == Ok::<DecodedView, StoreError>(
        DecodedView::Record { key, value, len: bytes.len() },
    )
}

/// Encrypts `value` under `nonce` and serialises the record for `key`. This
/// is the deterministic part of `encode`. The bytes decode to `key` and
/// `value` again under the same cipher.
pub fn encode_with_nonce(key: &[u8], value: &[u8], nonce: &[u8], cipher: &Encrypter) -> (r: Result<
    Vec<u8>,
    StoreError,
>)
    requires
        fits_record(key@, value@),
    ensures
        bytes_result_is(r, spec_encode(key@, value@, nonce@, cipher@)),
        r is Ok <==> nonce@.len() == NONCE_LEN,
        r matches Ok(bytes) ==> is_record_of(bytes@, key@, value@, cipher@),
{
    match cipher.encrypt_with_nonce(value, nonce) {
        Err(e) => Err(e),
        Ok(sealed) => {
            let record = Record::new(nonce, key, sealed);
            let bytes = record.to_bytes();
            proof {
                lemma_parse_bytes(record@, Seq::empty());
                assert(record@.bytes() + Seq::<u8>::empty() =~= bytes@);
            }
            Ok(bytes)
        },
    }
}

/// Encrypts `value` under a fresh nonce and serialises the record for `key`:
/// checksum, nonce, the two lengths, key, ciphertext. The bytes decode to
/// `key` and `value` again under the same cipher.
pub fn encode(key: &[u8], value: &[u8], cipher: &Encrypter) -> (r: Result<Vec<u8>, StoreError>)
    requires
        fits_record(key@, value@),
    ensures
        r matches Ok(bytes) && is_record_of(bytes@, key@, value@, cipher@),
{
    match cipher.encrypt(value) {
        Err(e) => Err(e),
        Ok((sealed, nonce)) => {
            let record = Record::new(nonce.as_slice(), key, sealed);
            let bytes = record.to_bytes();
            proof {
                lemma_parse_bytes(record@, Seq::empty());
                assert(record@.bytes() + Seq::<u8>::empty() =~= bytes@);
                assert(spec_encode(key@, value@, nonce@, cipher@) == Ok::<Seq<u8>, StoreError>(
                    bytes@,
                ));
            }
            Ok(bytes)
        },
    }
}

/// Reads the record at the head of `stream`, checks it against its checksum
/// and decrypts its value. An empty stream is the end of the log and no
/// error; a stream that ends inside a record is truncated.
pub fn decode(stream: &[u8], cipher: &Encrypter) -> (r: Result<Decoded, StoreError>)
    ensures
        match r {
            Ok(decoded) => spec_decode(stream@, cipher@) == Ok::<DecodedView, StoreError>(decoded@),
            Err(e) => spec_decode(stream@, cipher@) == Err::<DecodedView, StoreError>(e),
        },
        r matches Ok(Decoded::Record { len, .. }) ==> HEADER_LEN <= len <= stream@.len(),
{
    match Record::parse(stream) {
        Err(e) => Err(e),
        Ok(None) => Ok(Decoded::EndOfLog),
        Ok(Some(record)) => {
            assert(record@.len() <= stream.len());
            let len: usize = HEADER_LEN + record.key.len() + record.value.len();
            match record.open(cipher) {
                Err(e) => Err(e),
                Ok(pair) => Ok(Decoded::Record { pair, len }),
            }
        },
    }
}

/// `stream` with one bit of the byte at `at` inverted.
pub open spec fn flip_bit(stream: Seq<u8>, at: int, bit: u8) -> Seq<u8> {
    stream.update(at, stream[at] ^ (1u8 << bit))
}

/// A record with one bit of its key or stored value inverted decodes to
/// `Corruption`, whatever follows it and whatever the cipher, unless the
/// altered bytes have the very digest that the record carries.
pub proof fn lemma_flipped_bit_is_corruption(
    record: RecordView,
    rest: Seq<u8>,
    at: int,
    bit: u8,
    cipher_key: Seq<u8>,
)
    requires
        record.well_formed(),
        HEADER_LEN <= at < record.len(),
        bit < 8,
        blake3_digest(
            flip_bit(record.bytes(), at, bit).subrange(HEADER_LEN as int, record.len() as int),
        ) != record.checksum,
    ensures
        spec_decode(flip_bit(record.bytes(), at, bit) + rest, cipher_key) == Err::<
            DecodedView,
            StoreError,
        >(StoreError::Corruption),
{
    let flipped = flip_bit(record.bytes(), at, bit);
    let key_len = record.key.len() as int;
    let altered = RecordView {
        checksum: record.checksum,
        nonce: record.nonce,
        key: flipped.subrange(52, 52 + key_len),
        value: flipped.subrange(52 + key_len, record.len() as int),
    };
    assert(record.bytes().len() == record.len());
    assert(flipped =~= altered.bytes());
    assert(altered.key + altered.value =~= flipped.subrange(52, record.len() as int));
    lemma_parse_bytes(altered, rest);
}

/// A record sealed under one key decodes to `Crypto` under another key,
/// unless its ciphertext happens to authenticate under that key too.
pub proof fn lemma_other_key_is_crypto(
    key: Seq<u8>,
    value: Seq<u8>,
    nonce: Seq<u8>,
    cipher_key: Seq<u8>,
    other_key: Seq<u8>,
    rest: Seq<u8>,
)
    requires
        spec_seal(cipher_key, nonce, key, value).well_formed(),
        aes256_gcm_open(other_key, nonce, aes256_gcm_seal(cipher_key, nonce, value)) is None,
    ensures
        spec_decode(spec_seal(cipher_key, nonce, key, value).bytes() + rest, other_key) == Err::<
            DecodedView,
            StoreError,
        >(StoreError::Crypto),
{
    lemma_parse_bytes(spec_seal(cipher_key, nonce, key, value), rest);
}

} // verus!
