//! The cipher context: a 256-bit key, and authenticated encryption of single
//! buffers under it.

use crate::bytes::{ByteStr, ByteString};
use crate::error::StoreError;
use aes_gcm::aead::Aead;
use aes_gcm::{Aes256Gcm, KeyInit, Nonce};
use generic_array::GenericArray;
use rand::Rng;
use vstd::prelude::*;

verus! {

/// Length in bytes of the symmetric key.
pub const KEY_LEN: usize = 32;

/// Length in bytes of the nonce that accompanies each ciphertext.
pub const NONCE_LEN: usize = 12;

/// Number of bytes by which a ciphertext is longer than its plaintext: the
/// authentication tag.
pub const TAG_LEN: usize = 16;

/// The longest plaintext, in bytes, that AES-GCM encrypts under one nonce.
pub const MAX_PLAINTEXT_LEN: u64 = 68_719_476_736;

/// `aes_gcm::Error`, the error of encryption and decryption. It says nothing
/// of the cause, and nothing is read from it.
#[verifier::external_type_specification]
#[verifier::external_body]
pub struct ExAeadError(aes_gcm::Error);

/// `base_62::Error`, the error of decoding. Nothing is read from it.
#[verifier::external_type_specification]
#[verifier::external_body]
pub struct ExBase62Error(base_62::Error);

/// The AES-256-GCM ciphertext of `plaintext` under `key` and `nonce`, with no
/// associated data and the 16-byte tag appended.
pub uninterp spec fn aes256_gcm_seal(key: Seq<u8>, nonce: Seq<u8>, plaintext: Seq<u8>) -> Seq<u8>;

/// The plaintext that AES-256-GCM recovers from `ciphertext` under `key` and
/// `nonce`, or `None` where the tag does not authenticate it.
pub uninterp spec fn aes256_gcm_open(key: Seq<u8>, nonce: Seq<u8>, ciphertext: Seq<u8>) -> Option<
    Seq<u8>,
>;

/// The bytes that a base-62 text stands for, or `None` where the text is not
/// base-62.
pub uninterp spec fn base62_decoded(text: Seq<char>) -> Option<Seq<u8>>;

/// Whether `c` belongs to the base-62 alphabet: a digit or an ASCII letter.
pub open spec fn is_base62_char(c: char) -> bool {
    ||| '0' <= c <= '9'
    ||| 'A' <= c <= 'Z'
    ||| 'a' <= c <= 'z'
}

/// Whether every character of `text` belongs to the base-62 alphabet.
pub open spec fn is_base62(text: Seq<char>) -> bool {
    forall|i: int| 0 <= i < text.len() ==> is_base62_char(#[trigger] text[i])
}

/// `Aes256Gcm::new` on the key, then `Aead::encrypt` with an empty associated
/// data. The call fails only on a plaintext longer than AES-GCM allows; the
/// ciphertext is a function of key, nonce and plaintext, is 16 bytes longer
/// than the plaintext, and decrypts to it under the same key and nonce. The
/// key and nonce conversions panic on other lengths, which the precondition
/// rules out.
#[verifier::external_body]
fn aead_encrypt(key: &[u8], nonce: &[u8], plaintext: &[u8]) -> (r: Result<Vec<u8>, aes_gcm::Error>)
    requires
        key@.len() == KEY_LEN,
        nonce@.len() == NONCE_LEN,
    ensures
        r is Ok <==> plaintext@.len() <= MAX_PLAINTEXT_LEN,
        r matches Ok(sealed) ==> {
            &&& sealed@ == aes256_gcm_seal(key@, nonce@, plaintext@)
            &&& sealed@.len() == plaintext@.len() + TAG_LEN
            &&& aes256_gcm_open(key@, nonce@, sealed@) == Some(plaintext@)
        },
{
    let cipher = Aes256Gcm::new(GenericArray::from_slice(key));
    cipher.encrypt(Nonce::from_slice(nonce), plaintext)
}

/// `Aes256Gcm::new` on the key, then `Aead::decrypt` with an empty associated
/// data. The call yields a plaintext exactly where the tag authenticates the
/// ciphertext under this key and nonce; the plaintext is then 16 bytes
/// shorter than the ciphertext. The key and nonce conversions panic on other
/// lengths, which the precondition rules out.
#[verifier::external_body]
fn aead_decrypt(key: &[u8], nonce: &[u8], ciphertext: &[u8]) -> (r: Result<Vec<u8>, aes_gcm::Error>)
    requires
        key@.len() == KEY_LEN,
        nonce@.len() == NONCE_LEN,
    ensures
        match r {
            Ok(opened) => {
                &&& aes256_gcm_open(key@, nonce@, ciphertext@) == Some(opened@)
                &&& opened@.len() + TAG_LEN == ciphertext@.len()
            },
            Err(_) => aes256_gcm_open(key@, nonce@, ciphertext@) is None,
        },
{
    let cipher = Aes256Gcm::new(GenericArray::from_slice(key));
    cipher.decrypt(Nonce::from_slice(nonce), ciphertext)
}

/// `rand::thread_rng().gen::<[u8; 12]>()`: twelve bytes from the thread's
/// cryptographic random number generator. Nothing is known of their values.
#[verifier::external_body]
fn random_nonce() -> (nonce: [u8; 12]) {
    rand::thread_rng().gen::<[u8; 12]>()
}

/// `base_62::decode`: fails exactly where some character is outside the
/// base-62 alphabet, and otherwise yields bytes that depend on the text alone.
#[verifier::external_body]
fn base62_decode(text: &str) -> (r: Result<Vec<u8>, base_62::Error>)
    ensures
        r is Ok <==> is_base62(text@),
        match r {
            Ok(bytes) => base62_decoded(text@) == Some(bytes@),
            Err(_) => base62_decoded(text@) is None,
        },
{
    base_62::decode(text)
}

/// What `Encrypter::encrypt_with_nonce` returns for a key, a plaintext and a
/// nonce.
pub open spec fn spec_encrypt(key: Seq<u8>, data: Seq<u8>, nonce: Seq<u8>) -> Result<
    Seq<u8>,
    StoreError,
> {
    if nonce.len() == NONCE_LEN && data.len() <= MAX_PLAINTEXT_LEN {
        Ok(aes256_gcm_seal(key, nonce, data))
    } else {
        Err(StoreError::Crypto)
    }
}

/// What `Encrypter::decrypt` returns for a key, a ciphertext and a nonce.
pub open spec fn spec_decrypt(key: Seq<u8>, data: Seq<u8>, nonce: Seq<u8>) -> Result<
    Seq<u8>,
    StoreError,
> {
    if nonce.len() != NONCE_LEN {
        Err(StoreError::Crypto)
    } else {
        match aes256_gcm_open(key, nonce, data) {
            Some(plaintext) => Ok(plaintext),
            None => Err(StoreError::Crypto),
        }
    }
}

/// Whether a result of bytes is the one that `expected` describes.
pub open spec fn bytes_result_is(r: Result<Vec<u8>, StoreError>, expected: Result<
    Seq<u8>,
    StoreError,
>) -> bool {
    match r {
        Ok(bytes) => expected == Ok::<Seq<u8>, StoreError>(bytes@),
        Err(e) => expected == Err::<Seq<u8>, StoreError>(e),
    }
}

/// A 256-bit AES-GCM key. Its view is the key's bytes.
pub struct Encrypter {
    key: Vec<u8>,
}

impl View for Encrypter {
    type V = Seq<u8>;

    closed spec fn view(&self) -> Seq<u8> {
        self.key@
    }
}

impl Encrypter {
    #[verifier::type_invariant]
    spec fn key_has_cipher_length(&self) -> bool {
        self.key@.len() == KEY_LEN
    }

    /// Decodes a base-62 text into key bytes.
    pub fn encryption_key(encoded_key: &str) -> (r: Result<ByteString, StoreError>)
        ensures
            r is Ok <==> is_base62(encoded_key@),
            match r {
                Ok(key) => base62_decoded(encoded_key@) == Some(key@),
                Err(e) => e == StoreError::Crypto,
            },
    {
        match base62_decode(encoded_key) {
            Ok(key) => Ok(key),
            Err(_) => Err(StoreError::Crypto),
        }
    }

    /// Builds the cipher context for `key`, which must be 32 bytes long.
    pub fn from_key(key: ByteString) -> (r: Result<Encrypter, StoreError>)
        ensures
            match r {
                Ok(cipher) => key@.len() == KEY_LEN && cipher@ == key@,
                Err(e) => key@.len() != KEY_LEN && e == StoreError::Crypto,
            },
    {
        if key.len() == KEY_LEN {
            Ok(Encrypter { key })
        } else {
            Err(StoreError::Crypto)
        }
    }

    /// Encrypts `data` under a nonce drawn afresh from the random number
    /// generator, and returns the ciphertext with that nonce.
    pub fn encrypt(&self, data: &ByteStr) -> (r: Result<(ByteString, ByteString), StoreError>)
        ensures
            r is Ok <==> data@.len() <= MAX_PLAINTEXT_LEN,
            match r {
                Ok((sealed, nonce)) => {
                    &&& nonce@.len() == NONCE_LEN
                    &&& sealed@ == aes256_gcm_seal(self@, nonce@, data@)
                    &&& sealed@.len() == data@.len() + TAG_LEN
                    &&& spec_decrypt(self@, sealed@, nonce@) == Ok::<Seq<u8>, StoreError>(data@)
                },
                Err(e) => e == StoreError::Crypto,
            },
    {
        let fresh = random_nonce();
        let nonce = vstd::slice::slice_to_vec(fresh.as_slice());
        match self.encrypt_with_nonce(data, nonce.as_slice()) {
            Ok(sealed) => Ok((sealed, nonce)),
            Err(e) => Err(e),
        }
    }

    /// Encrypts `data` under the given nonce. This is the deterministic part
    /// of `encrypt`, which is the entry point for new records: a nonce must
    /// never be used twice with one key.
    pub fn encrypt_with_nonce(&self, data: &ByteStr, nonce: &ByteStr) -> (r: Result<
        ByteString,
        StoreError,
    >)
        ensures
            bytes_result_is(r, spec_encrypt(self@, data@, nonce@)),
            r matches Ok(sealed) ==> {
                &&& sealed@.len() == data@.len() + TAG_LEN
                &&& spec_decrypt(self@, sealed@, nonce@) == Ok::<Seq<u8>, StoreError>(data@)
            },
    {
        proof {
            use_type_invariant(self);
        }
        if nonce.len() != NONCE_LEN {
            return Err(StoreError::Crypto);
        }
        match aead_encrypt(self.key.as_slice(), nonce, data) {
            Ok(sealed) => Ok(sealed),
            Err(_) => Err(StoreError::Crypto),
        }
    }

    /// Decrypts `data` under `nonce`. Fails where the nonce is not 12 bytes
    /// long or the ciphertext does not authenticate under this key.
    pub fn decrypt(&self, data: &ByteStr, nonce: &ByteStr) -> (r: Result<ByteString, StoreError>)
        ensures
            bytes_result_is(r, spec_decrypt(self@, data@, nonce@)),
            r matches Ok(opened) ==> opened@.len() + TAG_LEN == data@.len(),
    {
        proof {
            use_type_invariant(self);
        }
        if nonce.len() != NONCE_LEN {
            return Err(StoreError::Crypto);
        }
        match aead_decrypt(self.key.as_slice(), nonce, data) {
            Ok(opened) => Ok(opened),
            Err(_) => Err(StoreError::Crypto),
        }
    }
}

} // verus!
