use libakvdb::encrypter::Encrypter;
use libakvdb::error::StoreError;
use libakvdb::record::{encode, KeyValuePair};
use libakvdb::store::ActionKV;

fn cipher() -> Encrypter {
    Encrypter::from_key(vec![42u8; 32]).unwrap()
}

fn empty_store() -> ActionKV {
    ActionKV::open(Vec::new(), cipher())
}

fn reopened(store: &ActionKV) -> ActionKV {
    ActionKV::open(store.log.as_bytes().to_vec(), cipher())
}

fn record_len(key: &[u8], value: &[u8]) -> u64 {
    (52 + key.len() + value.len() + 16) as u64
}

#[test]
fn open_starts_with_an_empty_index() {
    let mut written = empty_store();
    written.insert(b"a", b"1").unwrap();
    let store = reopened(&written);
    assert_eq!(store.get(b"a"), Ok(None));
    assert_eq!(store.index.lookup(b"a"), None);
    assert_eq!(store.seek_to_end(), record_len(b"a", b"1"));
}

#[test]
fn seek_to_end_of_an_empty_store_is_zero() {
    assert_eq!(empty_store().seek_to_end(), 0);
}

#[test]
fn last_write_wins() {
    let mut store = empty_store();
    store.insert(b"a", b"1").unwrap();
    let second = store.seek_to_end();
    store.insert(b"a", b"2").unwrap();
    store.load().unwrap();
    assert_eq!(store.get(b"a"), Ok(Some(b"2".to_vec())));
    assert_eq!(store.find(b"a"), Ok(Some((second, b"2".to_vec()))));
}

#[test]
fn last_write_wins_with_the_offset_that_the_write_returned() {
    let mut store = empty_store();
    let first = store.insert_but_ignore_index(b"a", b"1").unwrap();
    let second = store.insert_but_ignore_index(b"a", b"2").unwrap();
    assert_eq!(first, 0);
    assert_eq!(second, record_len(b"a", b"1"));
    assert_eq!(store.get(b"a"), Ok(None));
    store.load().unwrap();
    assert_eq!(store.get(b"a"), Ok(Some(b"2".to_vec())));
    assert_eq!(store.find(b"a"), Ok(Some((second, b"2".to_vec()))));
    assert_eq!(store.index.lookup(b"a"), Some(second));
}

#[test]
fn delete_then_get_is_present_and_empty() {
    let mut store = empty_store();
    store.insert(b"k", b"v").unwrap();
    store.delete(b"k").unwrap();
    store.load().unwrap();
    assert_eq!(store.get(b"k"), Ok(Some(Vec::new())));
    assert_eq!(store.find(b"k"), Ok(Some((record_len(b"k", b"v"), Vec::new()))));
}

#[test]
fn delete_keeps_the_key_in_the_index_and_the_log_growing() {
    let mut store = empty_store();
    store.insert(b"k", b"v").unwrap();
    let before = store.seek_to_end();
    store.delete(b"k").unwrap();
    assert_eq!(store.index.lookup(b"k"), Some(before));
    assert_eq!(store.seek_to_end(), before + record_len(b"k", b""));
}

#[test]
fn never_written_key_is_absent() {
    let mut store = empty_store();
    assert_eq!(store.get(b"missing"), Ok(None));
    assert_eq!(store.find(b"missing"), Ok(None));
    store.insert(b"present", b"1").unwrap();
    store.load().unwrap();
    assert_eq!(store.get(b"missing"), Ok(None));
    assert_eq!(store.find(b"missing"), Ok(None));
}

#[test]
fn insert_keeps_the_index_up_to_date_without_a_load() {
    let mut store = empty_store();
    store.insert(b"a", b"1").unwrap();
    store.insert(b"b", b"2").unwrap();
    assert_eq!(store.get(b"a"), Ok(Some(b"1".to_vec())));
    assert_eq!(store.get(b"b"), Ok(Some(b"2".to_vec())));
    store.update(b"a", b"3").unwrap();
    assert_eq!(store.get(b"a"), Ok(Some(b"3".to_vec())));
    assert_eq!(store.get(b"b"), Ok(Some(b"2".to_vec())));
}

#[test]
fn update_is_insert() {
    let mut store = empty_store();
    store.update(b"new", b"1").unwrap();
    assert_eq!(store.get(b"new"), Ok(Some(b"1".to_vec())));
    assert_eq!(store.seek_to_end(), record_len(b"new", b"1"));
    assert_eq!(store.index.lookup(b"new"), Some(0));
}

#[test]
fn insert_but_ignore_index_leaves_the_index_alone() {
    let mut store = empty_store();
    store.insert(b"a", b"1").unwrap();
    let offset = store.insert_but_ignore_index(b"a", b"2").unwrap();
    assert_eq!(offset, record_len(b"a", b"1"));
    assert_eq!(store.index.lookup(b"a"), Some(0));
    assert_eq!(store.get(b"a"), Ok(Some(b"1".to_vec())));
    assert_eq!(store.find(b"a"), Ok(Some((offset, b"2".to_vec()))));
}

#[test]
fn offsets_are_the_sums_of_the_lengths_before() {
    let writes: [(&[u8], &[u8]); 5] =
        [(b"a", b"1"), (b"bb", b""), (b"", b"333"), (b"a", b"4444"), (b"ccccc", b"55555")];
    let mut store = empty_store();
    let mut expected = 0u64;
    for (key, value) in writes {
        assert_eq!(store.insert_but_ignore_index(key, value), Ok(expected));
        expected += record_len(key, value);
        assert_eq!(store.seek_to_end(), expected);
    }
    assert_eq!(store.log.as_bytes().len() as u64, expected);
}

#[test]
fn offsets_stay_right_after_reads_in_between() {
    let mut store = empty_store();
    store.insert(b"a", b"1").unwrap();
    store.insert(b"b", b"2").unwrap();
    assert_eq!(store.get_at(0).unwrap().value, b"1".to_vec());
    assert_eq!(store.find(b"a").unwrap(), Some((0, b"1".to_vec())));
    let third = store.insert_but_ignore_index(b"c", b"3").unwrap();
    assert_eq!(third, 2 * record_len(b"a", b"1"));
    assert_eq!(store.get_at(third), Ok(KeyValuePair { key: b"c".to_vec(), value: b"3".to_vec() }));
}

#[test]
fn load_agrees_with_find_on_every_key() {
    let mut store = empty_store();
    store.insert(b"a", b"1").unwrap();
    store.insert(b"b", b"2").unwrap();
    store.update(b"a", b"3").unwrap();
    store.delete(b"b").unwrap();
    store.insert(b"c", b"4").unwrap();
    store.update(b"c", b"5").unwrap();
    store.insert(b"", b"empty key").unwrap();
    let mut fresh = reopened(&store);
    fresh.load().unwrap();
    for key in [&b"a"[..], &b"b"[..], &b"c"[..], &b""[..], &b"never"[..]] {
        let found = fresh.find(key).unwrap();
        assert_eq!(fresh.index.lookup(key), found.as_ref().map(|(offset, _)| *offset));
        assert_eq!(fresh.get(key).unwrap(), found.map(|(_, value)| value));
        assert_eq!(fresh.index.lookup(key), store.index.lookup(key));
    }
    assert_eq!(fresh.get(b"a"), Ok(Some(b"3".to_vec())));
    assert_eq!(fresh.get(b"b"), Ok(Some(Vec::new())));
    assert_eq!(fresh.get(b"c"), Ok(Some(b"5".to_vec())));
    assert_eq!(fresh.get(b""), Ok(Some(b"empty key".to_vec())));
}

#[test]
fn load_is_idempotent() {
    let mut store = empty_store();
    store.insert(b"a", b"1").unwrap();
    store.insert(b"b", b"2").unwrap();
    let mut fresh = reopened(&store);
    fresh.load().unwrap();
    let mut once = fresh.index.snapshot();
    once.sort();
    fresh.load().unwrap();
    let mut twice = fresh.index.snapshot();
    twice.sort();
    assert_eq!(twice, once);
    assert_eq!(once, vec![(b"a".to_vec(), 0), (b"b".to_vec(), record_len(b"a", b"1"))]);
}

#[test]
fn load_puts_the_scan_in_place_of_the_index() {
    let mut store = empty_store();
    store.insert(b"a", b"1").unwrap();
    store.index.insert(b"stale".to_vec(), 12345);
    store.load().unwrap();
    assert_eq!(store.index.lookup(b"stale"), None);
    assert_eq!(store.index.lookup(b"a"), Some(0));
}

#[test]
fn load_of_an_empty_log_gives_an_empty_index() {
    let mut store = empty_store();
    assert_eq!(store.load(), Ok(()));
    assert_eq!(store.index.snapshot(), Vec::new());
}

#[test]
fn load_of_a_log_with_a_partial_last_record_is_truncation() {
    let mut written = empty_store();
    written.insert(b"a", b"1").unwrap();
    written.insert(b"b", b"2").unwrap();
    let bytes = written.log.as_bytes();
    for cut in 1..record_len(b"b", b"2") as usize {
        let mut store = ActionKV::open(bytes[..bytes.len() - cut].to_vec(), cipher());
        store.index.insert(b"kept".to_vec(), 7);
        assert_eq!(store.load(), Err(StoreError::Truncation));
        assert_eq!(store.index.snapshot(), vec![(b"kept".to_vec(), 7)]);
        assert_eq!(store.find(b"a"), Err(StoreError::Truncation));
        assert_eq!(store.get_at(0).unwrap().value, b"1".to_vec());
    }
}

#[test]
fn load_of_a_log_with_a_corrupt_record_is_corruption() {
    let mut written = empty_store();
    written.insert(b"a", b"1").unwrap();
    written.insert(b"b", b"2").unwrap();
    let mut bytes = written.log.as_bytes().to_vec();
    bytes[52] ^= 0x01;
    let mut store = ActionKV::open(bytes, cipher());
    assert_eq!(store.load(), Err(StoreError::Corruption));
    assert_eq!(store.find(b"b"), Err(StoreError::Corruption));
    assert_eq!(store.get_at(0), Err(StoreError::Corruption));
    assert_eq!(
        store.get_at(record_len(b"a", b"1")),
        Ok(KeyValuePair { key: b"b".to_vec(), value: b"2".to_vec() })
    );
}

#[test]
fn load_under_another_key_is_a_crypto_error() {
    let mut written = empty_store();
    written.insert(b"a", b"1").unwrap();
    let other = Encrypter::from_key(vec![43u8; 32]).unwrap();
    let mut store = ActionKV::open(written.log.as_bytes().to_vec(), other);
    assert_eq!(store.load(), Err(StoreError::Crypto));
    assert_eq!(store.find(b"a"), Err(StoreError::Crypto));
    assert_eq!(store.get_at(0), Err(StoreError::Crypto));
}

#[test]
fn get_at_reads_the_record_at_the_offset() {
    let mut store = empty_store();
    store.insert(b"first", b"1").unwrap();
    store.insert(b"second", b"2").unwrap();
    assert_eq!(
        store.get_at(0),
        Ok(KeyValuePair { key: b"first".to_vec(), value: b"1".to_vec() })
    );
    assert_eq!(
        store.get_at(record_len(b"first", b"1")),
        Ok(KeyValuePair { key: b"second".to_vec(), value: b"2".to_vec() })
    );
}

#[test]
fn get_at_the_end_of_the_log_finds_nothing() {
    let mut store = empty_store();
    assert_eq!(store.get_at(0), Err(StoreError::NotFound));
    store.insert(b"a", b"1").unwrap();
    assert_eq!(store.get_at(store.seek_to_end()), Err(StoreError::NotFound));
    assert_eq!(store.get_at(store.seek_to_end() + 1), Err(StoreError::NotFound));
    assert_eq!(store.get_at(u64::MAX), Err(StoreError::NotFound));
}

#[test]
fn get_at_an_offset_inside_the_last_record_is_truncation() {
    let mut store = empty_store();
    store.insert(b"a", b"1").unwrap();
    assert_eq!(store.get_at(store.seek_to_end() - 1), Err(StoreError::Truncation));
    assert_eq!(store.get_at(30), Err(StoreError::Truncation));
}

#[test]
fn get_follows_the_index_even_to_a_stale_offset() {
    let mut store = empty_store();
    store.insert(b"a", b"1").unwrap();
    store.insert(b"a", b"2").unwrap();
    store.index.insert(b"a".to_vec(), 0);
    assert_eq!(store.get(b"a"), Ok(Some(b"1".to_vec())));
    store.index.insert(b"a".to_vec(), store.seek_to_end());
    assert_eq!(store.get(b"a"), Err(StoreError::NotFound));
}

#[test]
fn find_returns_the_last_of_many_versions() {
    let mut store = empty_store();
    let mut last = 0;
    for round in 0u8..10 {
        store.insert_but_ignore_index(b"other", &[round]).unwrap();
        last = store.insert_but_ignore_index(b"key", &[round, round]).unwrap();
    }
    assert_eq!(store.find(b"key"), Ok(Some((last, vec![9, 9]))));
}

#[test]
fn find_tells_keys_apart_that_share_a_prefix() {
    let mut store = empty_store();
    store.insert(b"ab", b"long").unwrap();
    store.insert(b"a", b"short").unwrap();
    assert_eq!(store.find(b"ab"), Ok(Some((0, b"long".to_vec()))));
    assert_eq!(store.find(b"a"), Ok(Some((record_len(b"ab", b"long"), b"short".to_vec()))));
    assert_eq!(store.find(b"abc"), Ok(None));
}

#[test]
fn the_log_is_the_records_end_to_end() {
    let mut store = empty_store();
    store.insert(b"a", b"1").unwrap();
    store.insert(b"b", b"22").unwrap();
    let bytes = store.log.as_bytes();
    let first = record_len(b"a", b"1") as usize;
    assert_eq!(bytes.len(), first + record_len(b"b", b"22") as usize);
    assert_eq!(&bytes[44..48], &[1, 0, 0, 0][..]);
    assert_eq!(&bytes[48..52], &[17, 0, 0, 0][..]);
    assert_eq!(&bytes[52..53], b"a");
    assert_eq!(&bytes[first + 44..first + 48], &[1, 0, 0, 0][..]);
    assert_eq!(&bytes[first + 48..first + 52], &[18, 0, 0, 0][..]);
    assert_eq!(&bytes[first + 52..first + 53], b"b");
}

#[test]
fn a_record_encoded_elsewhere_can_be_read_from_the_log() {
    let mut bytes = encode(b"x", b"1", &cipher()).unwrap();
    bytes.extend_from_slice(&encode(b"y", b"2", &cipher()).unwrap());
    let mut store = ActionKV::open(bytes, cipher());
    store.load().unwrap();
    assert_eq!(store.get(b"x"), Ok(Some(b"1".to_vec())));
    assert_eq!(store.get(b"y"), Ok(Some(b"2".to_vec())));
}

#[test]
fn values_are_not_stored_in_the_clear() {
    let mut store = empty_store();
    let value = b"a value that must not be seen in the log";
    store.insert(b"key", value).unwrap();
    let bytes = store.log.as_bytes();
    assert!(!bytes.windows(value.len()).any(|window| window == value));
    assert!(bytes.windows(3).any(|window| window == b"key"));
}
