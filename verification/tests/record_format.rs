use libakvdb::digest::checksum;
use libakvdb::encrypter::Encrypter;
use libakvdb::error::StoreError;
use libakvdb::record::{
    decode, encode, encode_with_nonce, Decoded, KeyValuePair, Record, HEADER_LEN,
};

fn cipher() -> Encrypter {
    Encrypter::from_key(vec![7u8; 32]).unwrap()
}

fn pair(key: &[u8], value: &[u8]) -> KeyValuePair {
    KeyValuePair { key: key.to_vec(), value: value.to_vec() }
}

fn hex(text: &str) -> Vec<u8> {
    let digits: Vec<u8> = text
        .bytes()
        .map(|c| match c {
            b'0'..=b'9' => c - b'0',
            b'a'..=b'f' => c - b'a' + 10,
            _ => panic!("not a hex digit"),
        })
        .collect();
    digits.chunks(2).map(|pair| pair[0] * 16 + pair[1]).collect()
}

#[test]
fn checksum_of_nothing_is_the_blake3_digest_of_the_empty_input() {
    assert_eq!(
        checksum(b""),
        hex("af1349b9f5f9a1a6a0404dea36dcc9499bcb25c9adc112b7cc9a93cae41f3262")
    );
}

#[test]
fn checksum_agrees_with_the_outside_hasher() {
    let data = b"key followed by ciphertext";
    assert_eq!(checksum(data), blake3::hash(data).as_bytes().to_vec());
    assert_ne!(checksum(data), checksum(b"key followed by ciphertexu"));
}

#[test]
fn encode_then_decode_gives_back_the_pair() {
    let cipher = cipher();
    let bytes = encode(b"alpha", b"one", &cipher).unwrap();
    assert_eq!(bytes.len(), 52 + 5 + 3 + 16);
    assert_eq!(
        decode(&bytes, &cipher),
        Ok(Decoded::Record { pair: pair(b"alpha", b"one"), len: bytes.len() })
    );
}

#[test]
fn encode_then_decode_keeps_empty_keys_and_values() {
    let cipher = cipher();
    for (key, value) in [(&b""[..], &b""[..]), (&b""[..], &b"v"[..]), (&b"k"[..], &b""[..])] {
        let bytes = encode(key, value, &cipher).unwrap();
        assert_eq!(bytes.len(), HEADER_LEN + key.len() + value.len() + 16);
        assert_eq!(
            decode(&bytes, &cipher),
            Ok(Decoded::Record { pair: pair(key, value), len: bytes.len() })
        );
    }
}

#[test]
fn encode_then_decode_keeps_every_byte_value() {
    let cipher = cipher();
    let key: Vec<u8> = (0u8..=255).collect();
    let value: Vec<u8> = (0u8..=255).rev().cycle().take(1000).collect();
    let bytes = encode(&key, &value, &cipher).unwrap();
    assert_eq!(
        decode(&bytes, &cipher),
        Ok(Decoded::Record { pair: pair(&key, &value), len: 52 + 256 + 1000 + 16 })
    );
}

#[test]
fn encode_then_decode_over_a_range_of_lengths() {
    let cipher = cipher();
    for key_len in (0..40).step_by(3) {
        for value_len in (0..70).step_by(7) {
            let key: Vec<u8> = (0..key_len).map(|i| (i * 7 + 1) as u8).collect();
            let value: Vec<u8> = (0..value_len).map(|i| (i * 13 + 5) as u8).collect();
            let bytes = encode(&key, &value, &cipher).unwrap();
            assert_eq!(
                decode(&bytes, &cipher),
                Ok(Decoded::Record { pair: pair(&key, &value), len: 68 + key_len + value_len })
            );
        }
    }
}

#[test]
fn encode_lays_the_fields_out_in_order() {
    let cipher = Encrypter::from_key(vec![0u8; 32]).unwrap();
    let nonce = [0u8; 12];
    let key = b"key";
    let bytes = encode_with_nonce(key, &[0u8; 16], &nonce, &cipher).unwrap();
    let sealed = hex("cea7403d4d606b6e074ec5d3baf39d18d0d1c8a799996bf0265b98b5d48ab919");
    let mut covered = key.to_vec();
    covered.extend_from_slice(&sealed);
    let mut expected = blake3::hash(&covered).as_bytes().to_vec();
    expected.extend_from_slice(&nonce);
    expected.extend_from_slice(&[3, 0, 0, 0]);
    expected.extend_from_slice(&[32, 0, 0, 0]);
    expected.extend_from_slice(key);
    expected.extend_from_slice(&sealed);
    assert_eq!(bytes, expected);
}

#[test]
fn encode_with_nonce_is_a_function_of_its_arguments() {
    let cipher = cipher();
    let nonce = [9u8; 12];
    assert_eq!(
        encode_with_nonce(b"k", b"v", &nonce, &cipher),
        encode_with_nonce(b"k", b"v", &nonce, &cipher)
    );
    assert_ne!(
        encode_with_nonce(b"k", b"v", &nonce, &cipher),
        encode_with_nonce(b"k", b"v", &[8u8; 12], &cipher)
    );
}

#[test]
fn encode_with_nonce_refuses_a_nonce_of_another_length() {
    assert_eq!(encode_with_nonce(b"k", b"v", &[0u8; 8], &cipher()), Err(StoreError::Crypto));
}

#[test]
fn to_bytes_writes_the_lengths_least_significant_byte_first() {
    let record = Record {
        checksum: vec![0xaa; 32],
        nonce: vec![0xbb; 12],
        key: vec![0xcc; 0x0102],
        value: vec![0xdd; 0x010203],
    };
    let bytes = record.to_bytes();
    assert_eq!(bytes.len(), 52 + 0x0102 + 0x010203);
    assert_eq!(&bytes[..32], &[0xaa; 32][..]);
    assert_eq!(&bytes[32..44], &[0xbb; 12][..]);
    assert_eq!(&bytes[44..48], &[0x02, 0x01, 0x00, 0x00][..]);
    assert_eq!(&bytes[48..52], &[0x03, 0x02, 0x01, 0x00][..]);
    assert_eq!(&bytes[52..52 + 0x0102], &[0xcc; 0x0102][..]);
    assert_eq!(&bytes[52 + 0x0102..], &vec![0xdd; 0x010203][..]);
}

#[test]
fn parse_undoes_to_bytes() {
    let record = Record {
        checksum: (0u8..32).collect(),
        nonce: (100u8..112).collect(),
        key: b"some key".to_vec(),
        value: b"some stored value".to_vec(),
    };
    let mut stream = record.to_bytes();
    assert_eq!(Record::parse(&stream), Ok(Some(Record {
        checksum: (0u8..32).collect(),
        nonce: (100u8..112).collect(),
        key: b"some key".to_vec(),
        value: b"some stored value".to_vec(),
    })));
    stream.extend_from_slice(b"whatever follows");
    assert_eq!(Record::parse(&stream), Ok(Some(record)));
}

#[test]
fn parse_reads_the_lengths_least_significant_byte_first() {
    let mut stream = vec![0u8; 52];
    stream[44..48].copy_from_slice(&[0x01, 0x01, 0x00, 0x00]);
    stream[48..52].copy_from_slice(&[0x02, 0x00, 0x00, 0x00]);
    stream.extend_from_slice(&[5u8; 257]);
    stream.extend_from_slice(&[6u8; 2]);
    let record = Record::parse(&stream).unwrap().unwrap();
    assert_eq!(record.key, vec![5u8; 257]);
    assert_eq!(record.value, vec![6u8; 2]);
}

#[test]
fn parse_of_an_empty_stream_finds_no_record() {
    assert_eq!(Record::parse(&[]), Ok(None));
}

#[test]
fn parse_of_a_partial_header_is_truncation() {
    for len in 1..52 {
        assert_eq!(Record::parse(&vec![0u8; len]), Err(StoreError::Truncation));
    }
}

#[test]
fn parse_of_a_partial_body_is_truncation() {
    let record = Record {
        checksum: vec![1; 32],
        nonce: vec![2; 12],
        key: b"key".to_vec(),
        value: b"value".to_vec(),
    };
    let bytes = record.to_bytes();
    for len in 52..bytes.len() {
        assert_eq!(Record::parse(&bytes[..len]), Err(StoreError::Truncation));
    }
    assert!(Record::parse(&bytes).is_ok());
}

#[test]
fn parse_of_lengths_past_the_stream_is_truncation() {
    let mut stream = vec![0u8; 60];
    stream[44..48].copy_from_slice(&[0xff, 0xff, 0xff, 0xff]);
    stream[48..52].copy_from_slice(&[0xff, 0xff, 0xff, 0xff]);
    assert_eq!(Record::parse(&stream), Err(StoreError::Truncation));
}

#[test]
fn new_record_carries_the_digest_of_key_and_stored_value() {
    let record = Record::new(&[3u8; 12], b"key", b"stored".to_vec());
    assert_eq!(record.checksum, blake3::hash(b"keystored").as_bytes().to_vec());
    assert_eq!(record.nonce, vec![3u8; 12]);
    assert_eq!(record.key, b"key".to_vec());
    assert_eq!(record.value, b"stored".to_vec());
}

#[test]
fn open_checks_the_checksum_before_it_decrypts() {
    let cipher = cipher();
    let sealed = cipher.encrypt_with_nonce(b"value", &[4u8; 12]).unwrap();
    let mut record = Record::new(&[4u8; 12], b"key", sealed);
    assert_eq!(record.open(&cipher), Ok(pair(b"key", b"value")));
    record.checksum[0] ^= 0x80;
    assert_eq!(record.open(&cipher), Err(StoreError::Corruption));
}

#[test]
fn open_of_a_record_with_an_unauthentic_value_is_a_crypto_error() {
    let cipher = cipher();
    let record = Record::new(&[4u8; 12], b"key", vec![0u8; 20]);
    assert_eq!(record.open(&cipher), Err(StoreError::Crypto));
}

#[test]
fn decode_of_an_empty_stream_is_end_of_log() {
    assert_eq!(decode(&[], &cipher()), Ok(Decoded::EndOfLog));
}

#[test]
fn decode_of_a_short_header_is_truncation() {
    assert_eq!(decode(&[0u8; 1], &cipher()), Err(StoreError::Truncation));
    assert_eq!(decode(&[0u8; 51], &cipher()), Err(StoreError::Truncation));
}

#[test]
fn decode_of_a_record_cut_short_is_truncation() {
    let cipher = cipher();
    let bytes = encode(b"key", b"value", &cipher).unwrap();
    for len in 1..bytes.len() {
        assert_eq!(decode(&bytes[..len], &cipher), Err(StoreError::Truncation));
    }
}

#[test]
fn decode_reads_one_record_and_leaves_the_rest() {
    let cipher = cipher();
    let mut stream = encode(b"first", b"1", &cipher).unwrap();
    let first_len = stream.len();
    stream.extend_from_slice(&encode(b"second", b"22", &cipher).unwrap());
    assert_eq!(
        decode(&stream, &cipher),
        Ok(Decoded::Record { pair: pair(b"first", b"1"), len: first_len })
    );
    assert_eq!(
        decode(&stream[first_len..], &cipher),
        Ok(Decoded::Record { pair: pair(b"second", b"22"), len: stream.len() - first_len })
    );
}

#[test]
fn flipping_any_bit_of_key_or_ciphertext_is_corruption() {
    let cipher = cipher();
    let bytes = encode(b"key", b"value", &cipher).unwrap();
    for at in HEADER_LEN..bytes.len() {
        for bit in 0..8 {
            let mut flipped = bytes.clone();
            flipped[at] ^= 1 << bit;
            assert_eq!(decode(&flipped, &cipher), Err(StoreError::Corruption));
        }
    }
}

#[test]
fn flipping_a_bit_of_the_checksum_is_corruption() {
    let cipher = cipher();
    let bytes = encode(b"key", b"value", &cipher).unwrap();
    for at in 0..32 {
        let mut flipped = bytes.clone();
        flipped[at] ^= 0x10;
        assert_eq!(decode(&flipped, &cipher), Err(StoreError::Corruption));
    }
}

#[test]
fn flipping_a_bit_of_the_nonce_is_a_crypto_error() {
    let cipher = cipher();
    let bytes = encode(b"key", b"value", &cipher).unwrap();
    for at in 32..44 {
        let mut flipped = bytes.clone();
        flipped[at] ^= 0x01;
        assert_eq!(decode(&flipped, &cipher), Err(StoreError::Crypto));
    }
}

#[test]
fn decode_under_another_key_is_a_crypto_error() {
    let bytes = encode(b"key", b"value", &cipher()).unwrap();
    let other = Encrypter::from_key(vec![8u8; 32]).unwrap();
    assert_eq!(decode(&bytes, &other), Err(StoreError::Crypto));
}
