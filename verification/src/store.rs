//! The store: a log, an index over it and the cipher that seals its values.

use crate::bytes::{bytes_eq, ByteStr, ByteString};
use crate::encrypter::Encrypter;
use crate::error::StoreError;
use crate::index::Index;
use crate::log::{
    after, last_match, lemma_read_at_appended, lemma_scan_appended, lemma_scan_step, spec_find,
    spec_len_at, spec_load, spec_read_at, spec_scan, spec_scan_from, Entry, Log,
};
use crate::record::{
    encode, encoded_len, fits_record, is_record_of, lemma_parse_well_formed, Decoded,
    DecodedView, KeyValuePair,
};
use vstd::prelude::*;

verus! {

/// The view of a store: the bytes of its log, its index and the key of its
/// cipher.
pub ghost struct StoreView {
    pub log: Seq<u8>,
    pub index: Map<Seq<u8>, u64>,
    pub cipher_key: Seq<u8>,
}

/// The pair of the record that begins at `position`. Where the log has
/// nothing at `position`, there is no such record.
pub open spec fn spec_get_at(store: StoreView, position: u64) -> Result<
    (Seq<u8>, Seq<u8>),
    StoreError,
> {
    match spec_read_at(store.log, store.cipher_key, position as nat) {
        Err(e) => Err(e),
        Ok(DecodedView::EndOfLog) => Err(StoreError::NotFound),
        Ok(DecodedView::Record { key, value, .. }) => Ok((key, value)),
    }
}

/// The value of `key`: that of the record at the offset which the index
/// holds for it, and none where the index does not hold the key.
pub open spec fn spec_get(store: StoreView, key: Seq<u8>) -> Result<Option<Seq<u8>>, StoreError> {
    if store.index.contains_key(key) {
        match spec_get_at(store, store.index[key]) {
            Err(e) => Err(e),
            Ok((_, value)) => Ok(Some(value)),
        }
    } else {
        Ok(None)
    }
}

/// Whether `after` is `before` with one record for `key` and `value`
/// appended to the log, and nothing else changed but possibly the index.
pub open spec fn appended(
    before: StoreView,
    after: StoreView,
    key: Seq<u8>,
    value: Seq<u8>,
) -> bool {
    let record = after.log.subrange(before.log.len() as int, after.log.len() as int);
    &&& before.log.len() <= after.log.len() <= u64::MAX
    &&& after.log == before.log + record
    &&& is_record_of(record, key, value, before.cipher_key)
    &&& after.cipher_key == before.cipher_key
}

/// Whether `after` is `before` with `key` set to `value`: one record
/// appended, and the index pointing at it for `key`.
pub open spec fn inserted(
    before: StoreView,
    after: StoreView,
    key: Seq<u8>,
    value: Seq<u8>,
) -> bool {
    &&& appended(before, after, key, value)
    &&& after.index == before.index.insert(key, before.log.len() as u64)
}

/// The record that was appended can be read at the old end of the log.
pub proof fn lemma_get_at_after_append(
    before: StoreView,
    after: StoreView,
    key: Seq<u8>,
    value: Seq<u8>,
)
    requires
        appended(before, after, key, value),
    ensures
        spec_get_at(after, before.log.len() as u64) == Ok::<(Seq<u8>, Seq<u8>), StoreError>(
            (key, value),
        ),
        spec_len_at(after.log, after.cipher_key, before.log.len()) == encoded_len(key, value),
{
    let record = after.log.subrange(before.log.len() as int, after.log.len() as int);
    lemma_parse_well_formed(record);
}

/// After a key is set to a value, it reads back as that value.
pub proof fn lemma_get_after_insert(
    before: StoreView,
    after: StoreView,
    key: Seq<u8>,
    value: Seq<u8>,
)
    requires
        inserted(before, after, key, value),
    ensures
        spec_get(after, key) == Ok::<Option<Seq<u8>>, StoreError>(Some(value)),
{
    lemma_get_at_after_append(before, after, key, value);
}

/// A record that could be read before an append reads the same after it.
pub proof fn lemma_get_at_stable(
    before: StoreView,
    after: StoreView,
    key: Seq<u8>,
    value: Seq<u8>,
    position: u64,
)
    requires
        appended(before, after, key, value),
        spec_get_at(before, position) is Ok,
    ensures
        spec_get_at(after, position) == spec_get_at(before, position),
{
    let record = after.log.subrange(before.log.len() as int, after.log.len() as int);
    lemma_read_at_appended(before.log, record, before.cipher_key, position as nat);
}

/// Setting one key leaves every other key that could be read as it was.
pub proof fn lemma_get_other_after_insert(
    before: StoreView,
    after: StoreView,
    key: Seq<u8>,
    value: Seq<u8>,
    other: Seq<u8>,
)
    requires
        inserted(before, after, key, value),
        other != key,
        spec_get(before, other) is Ok,
    ensures
        spec_get(after, other) == spec_get(before, other),
{
    if before.index.contains_key(other) {
        lemma_get_at_stable(before, after, key, value, before.index[other]);
    }
}

/// After an append to a log that scans without error, the log still scans
/// without error, a search for the key finds the new record, and a search
/// for any other key finds what it found before.
pub proof fn lemma_find_after_append(
    before: StoreView,
    after: StoreView,
    key: Seq<u8>,
    value: Seq<u8>,
    other: Seq<u8>,
)
    requires
        appended(before, after, key, value),
        spec_scan(before.log, before.cipher_key) is Ok,
    ensures
        spec_scan(after.log, after.cipher_key) == Ok::<Seq<Entry>, StoreError>(
            spec_scan(before.log, before.cipher_key)->Ok_0.push(
                Entry { offset: before.log.len(), key, value },
            ),
        ),
        spec_find(after.log, after.cipher_key, key) == Ok::<Option<(u64, Seq<u8>)>, StoreError>(
            Some((before.log.len() as u64, value)),
        ),
        other != key ==> spec_find(after.log, after.cipher_key, other) == spec_find(
            before.log,
            before.cipher_key,
            other,
        ),
{
    let record = after.log.subrange(before.log.len() as int, after.log.len() as int);
    lemma_scan_appended(before.log, record, before.cipher_key, 0, key, value);
    let entries = spec_scan(before.log, before.cipher_key)->Ok_0;
    let added = Entry { offset: before.log.len(), key, value };
    assert(entries.push(added).drop_last() =~= entries);
}

/// An index that is what a scan of the log builds stays so through a write:
/// after a key is set, a scan of the longer log builds the index as the
/// write left it.
pub proof fn lemma_index_in_step_after_insert(
    before: StoreView,
    after: StoreView,
    key: Seq<u8>,
    value: Seq<u8>,
)
    requires
        inserted(before, after, key, value),
        spec_load(before.log, before.cipher_key) == Ok::<Map<Seq<u8>, u64>, StoreError>(
            before.index,
        ),
    ensures
        spec_load(after.log, after.cipher_key) == Ok::<Map<Seq<u8>, u64>, StoreError>(
            after.index,
        ),
{
    lemma_find_after_append(before, after, key, value, key);
    let entries = spec_scan(before.log, before.cipher_key)->Ok_0;
    let added = Entry { offset: before.log.len(), key, value };
    assert(entries.push(added).drop_last() =~= entries);
}

/// An append makes the log longer by the length of the record.
pub proof fn lemma_appended_len(before: StoreView, after: StoreView, key: Seq<u8>, value: Seq<u8>)
    requires
        appended(before, after, key, value),
    ensures
        after.log.len() == before.log.len() + encoded_len(key, value),
{
}

/// Whether `states` are the states of a store through a run of writes:
/// each state but the first is the one before it with one record appended
/// for the next pair of `writes`.
pub open spec fn is_run_of_writes(states: Seq<StoreView>, writes: Seq<(Seq<u8>, Seq<u8>)>) -> bool {
    &&& states.len() == writes.len() + 1
    &&& forall|i: int|
        0 <= i < writes.len() ==> appended(
            states[i],
            states[i + 1],
            (#[trigger] writes[i]).0,
            writes[i].1,
        )
}

/// Sum of the lengths of the records that hold the pairs of `writes`.
pub open spec fn total_encoded_len(writes: Seq<(Seq<u8>, Seq<u8>)>) -> nat
    decreases writes.len(),
{
    if writes.len() == 0 {
        0
    } else {
        total_encoded_len(writes.drop_last()) + encoded_len(writes.last().0, writes.last().1)
    }
}

/// In a run of writes, the log has grown after `count` of them by the
/// lengths of their records. A write returns the end of the log as its
/// offset, so on a log that began empty, the offset of a write is the sum
/// of the lengths of all records written before it.
pub proof fn lemma_offset_in_run(
    states: Seq<StoreView>,
    writes: Seq<(Seq<u8>, Seq<u8>)>,
    count: int,
)
    requires
        is_run_of_writes(states, writes),
        0 <= count <= writes.len(),
    ensures
        states[count].log.len() == states[0].log.len() + total_encoded_len(writes.take(count)),
    decreases count,
{
    if count > 0 {
        lemma_offset_in_run(states, writes, count - 1);
        let last = writes[count - 1];
        lemma_appended_len(states[count - 1], states[count], last.0, last.1);
        assert(writes.take(count).drop_last() =~= writes.take(count - 1));
        assert(writes.take(count).last() == last);
    }
}

/// Whether the result of a lookup is the one that `expected` describes.
pub open spec fn value_result_is(r: Result<Option<Vec<u8>>, StoreError>, expected: Result<
    Option<Seq<u8>>,
    StoreError,
>) -> bool {
    match r {
        Ok(Some(value)) => expected == Ok::<Option<Seq<u8>>, StoreError>(Some(value@)),
        Ok(None) => expected == Ok::<Option<Seq<u8>>, StoreError>(None),
        Err(e) => expected == Err::<Option<Seq<u8>>, StoreError>(e),
    }
}

/// Whether the result of a search is the one that `expected` describes.
pub open spec fn found_result_is(
    r: Result<Option<(u64, Vec<u8>)>, StoreError>,
    expected: Result<Option<(u64, Seq<u8>)>, StoreError>,
) -> bool {
    match r {
        Ok(Some((offset, value))) => expected == Ok::<Option<(u64, Seq<u8>)>, StoreError>(
            Some((offset, value@)),
        ),
        Ok(None) => expected == Ok::<Option<(u64, Seq<u8>)>, StoreError>(None),
        Err(e) => expected == Err::<Option<(u64, Seq<u8>)>, StoreError>(e),
    }
}

/// An append-only key-value store with encrypted values.
pub struct ActionKV {
    /// The records written so far.
    pub log: Log,
    /// For each key, the offset of its latest record, as far as the index
    /// has been built or kept up.
    pub index: Index,
    /// The cipher that seals and opens the values.
    pub cipher: Encrypter,
}

impl View for ActionKV {
    type V = StoreView;

    open spec fn view(&self) -> StoreView {
        StoreView { log: self.log@, index: self.index@, cipher_key: self.cipher@ }
    }
}

impl ActionKV {
    /// A store over a log with the given contents, with an empty index:
    /// nothing is scanned before `load` is called.
    pub fn open(contents: ByteString, cipher: Encrypter) -> (store: ActionKV)
        ensures
            store@ == (StoreView {
                log: contents@,
                index: Map::empty(),
                cipher_key: cipher@,
            }),
    {
        ActionKV { log: Log::new(contents), index: Index::new(), cipher }
    }

    /// The offset of the end of the log, at which the next record will
    /// begin.
    pub fn seek_to_end(&self) -> (end: u64)
        ensures
            end == self@.log.len(),
    {
        self.log.len()
    }

    /// Scans the whole log and puts the index that the scan builds in place
    /// of the present one. Where the scan fails, the index stays as it was.
    pub fn load(&mut self) -> (r: Result<(), StoreError>)
        ensures
            final(self)@.log == old(self)@.log,
            final(self)@.cipher_key == old(self)@.cipher_key,
            match spec_load(old(self)@.log, old(self)@.cipher_key) {
                Ok(index) => r is Ok && final(self)@.index == index,
                Err(e) => r == Err::<(), StoreError>(e) && final(self)@.index == old(self)@.index,
            },
    {
        match Index::rebuild(&self.log, &self.cipher) {
            Ok(index) => {
                self.index = index;
                Ok(())
            },
            Err(e) => Err(e),
        }
    }

    /// The value of `key`, read from the record to which the index points;
    /// `None` where the index does not hold the key.
    pub fn get(&self, key: &ByteStr) -> (r: Result<Option<ByteString>, StoreError>)
        ensures
            value_result_is(r, spec_get(self@, key@)),
    {
        let position = match self.index.lookup(key) {
            None => {
                return Ok(None);
            },
            Some(position) => position,
        };
        match self.get_at(position) {
            Ok(pair) => Ok(Some(pair.value)),
            Err(e) => Err(e),
        }
    }

    /// The pair of the record that begins at `position`, without a look at
    /// the index. Fails with `NotFound` where the log has nothing at
    /// `position`.
    pub fn get_at(&self, position: u64) -> (r: Result<KeyValuePair, StoreError>)
        ensures
            match r {
                Ok(pair) => spec_get_at(self@, position) == Ok::<(Seq<u8>, Seq<u8>), StoreError>(
                    pair@,
                ),
                Err(e) => spec_get_at(self@, position) == Err::<(Seq<u8>, Seq<u8>), StoreError>(
                    e,
                ),
            },
    {
        match self.log.read_at(position, &self.cipher) {
            Err(e) => Err(e),
            Ok(Decoded::EndOfLog) => Err(StoreError::NotFound),
            Ok(Decoded::Record { pair, .. }) => Ok(pair),
        }
    }

    /// Searches the whole log for `target` and returns the offset and value
    /// of its last record, without a look at the index.
    pub fn find(&self, target: &ByteStr) -> (r: Result<Option<(u64, ByteString)>, StoreError>)
        ensures
            found_result_is(r, spec_find(self@.log, self@.cipher_key, target@)),
    {
        let mut found: Option<(u64, ByteString)> = None;
        let mut position: u64 = 0;
        let end = self.log.len();
        let ghost mut done: Seq<Entry> = Seq::empty();
        assert(done + Seq::<Entry>::empty() =~= done);
        loop
            invariant
                end == self@.log.len(),
                spec_scan(self@.log, self@.cipher_key) == after(
                    done,
                    spec_scan_from(self@.log, self@.cipher_key, position as nat),
                ),
                match found {
                    None => last_match(done, target@) is None,
                    Some((offset, value)) => last_match(done, target@) matches Some(entry)
                        && entry.offset as u64 == offset && entry.value == value@,
                },
            decreases self@.log.len() - position,
        {
            match self.log.read_at(position, &self.cipher) {
                Err(e) => {
                    return Err(e);
                },
                Ok(Decoded::EndOfLog) => {
                    assert(done + Seq::<Entry>::empty() =~= done);
                    return Ok(found);
                },
                Ok(Decoded::Record { pair, len }) => {
                    proof {
                        let entry = Entry {
                            offset: position as nat,
                            key: pair.key@,
                            value: pair.value@,
                        };
                        lemma_scan_step(
                            self@.log,
                            self@.cipher_key,
                            done,
                            position as nat,
                            pair.key@,
                            pair.value@,
                            len as nat,
                        );
                        assert(done.push(entry).drop_last() =~= done);
                        done = done.push(entry);
                    }
                    if bytes_eq(pair.key.as_slice(), target) {
                        found = Some((position, pair.value));
                    }
                    position = position + len as u64;
                },
            }
        }
    }

    /// Appends a record that sets `key` to `value` and points the index at
    /// it.
    pub fn insert(&mut self, key: &ByteStr, value: &ByteStr) -> (r: Result<(), StoreError>)
        requires
            fits_record(key@, value@),
        ensures
            r is Ok,
            inserted(old(self)@, final(self)@, key@, value@),
    {
        match self.insert_but_ignore_index(key, value) {
            Ok(position) => {
                self.index.insert(vstd::slice::slice_to_vec(key), position);
                Ok(())
            },
            Err(e) => Err(e),
        }
    }

    /// Appends a record that sets `key` to `value` and returns the offset
    /// at which it begins, which is the end of the log just before the
    /// write. The index is left as it is.
    pub fn insert_but_ignore_index(&mut self, key: &ByteStr, value: &ByteStr) -> (r: Result<
        u64,
        StoreError,
    >)
        requires
            fits_record(key@, value@),
        ensures
            r == Ok::<u64, StoreError>(old(self)@.log.len() as u64),
            appended(old(self)@, final(self)@, key@, value@),
            final(self)@.index == old(self)@.index,
    {
        match encode(key, value, &self.cipher) {
            Ok(record) => {
                let position = self.log.append(record.as_slice());
                proof {
                    assert(self@.log.subrange(old(self)@.log.len() as int, self@.log.len() as int)
                        =~= record@);
                }
                Ok(position)
            },
            Err(e) => Err(e),
        }
    }

    /// Sets `key` to `value`. There is no difference from `insert`: both
    /// append a new version.
    pub fn update(&mut self, key: &ByteStr, value: &ByteStr) -> (r: Result<(), StoreError>)
        requires
            fits_record(key@, value@),
        ensures
            r is Ok,
            inserted(old(self)@, final(self)@, key@, value@),
    {
        self.insert(key, value)
    }

    /// Deletes `key` by setting it to the empty value. The key stays in
    /// the index and the log does not shrink.
    pub fn delete(&mut self, key: &ByteStr) -> (r: Result<(), StoreError>)
        requires
            fits_record(key@, Seq::<u8>::empty()),
        ensures
            r is Ok,
            inserted(old(self)@, final(self)@, key@, Seq::<u8>::empty()),
    {
        let nothing: ByteString = Vec::new();
        self.insert(key, nothing.as_slice())
    }
}

} // verus!
