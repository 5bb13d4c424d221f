//! The append-only log: records laid end to end from offset 0, with no
//! separators and no header of their own.

use crate::encrypter::Encrypter;
use crate::error::StoreError;
use crate::record::{
    decode, lemma_parse_extended, lemma_parse_well_formed, spec_decode, Decoded, DecodedView,
    KeyValuePair, HEADER_LEN,
};
use vstd::prelude::*;

verus! {

/// One record of a scan: where it begins, and its key and plaintext value.
pub ghost struct Entry {
    pub offset: nat,
    pub key: Seq<u8>,
    pub value: Seq<u8>,
}

/// What lies in `log` at `offset`. At or past the end there is nothing left
/// to read, which is the end of the log.
pub open spec fn spec_read_at(log: Seq<u8>, cipher_key: Seq<u8>, offset: nat) -> Result<
    DecodedView,
    StoreError,
> {
    if offset >= log.len() {
        Ok(DecodedView::EndOfLog)
    } else {
        spec_decode(log.subrange(offset as int, log.len() as int), cipher_key)
    }
}

/// The records of `log` from `offset` to its end, in the order in which they
/// lie, or the error of the first one that cannot be read.
pub open spec fn spec_scan_from(log: Seq<u8>, cipher_key: Seq<u8>, offset: nat) -> Result<
    Seq<Entry>,
    StoreError,
>
    decreases log.len() - offset,
{
    match spec_read_at(log, cipher_key, offset) {
        Err(e) => Err(e),
        Ok(DecodedView::EndOfLog) => Ok(Seq::empty()),
        Ok(DecodedView::Record { key, value, len }) => {
            match spec_scan_from(log, cipher_key, offset + len) {
                Err(e) => Err(e),
                Ok(rest) => Ok(seq![Entry { offset, key, value }] + rest),
            }
        },
    }
}

/// The scan of the whole log.
pub open spec fn spec_scan(log: Seq<u8>, cipher_key: Seq<u8>) -> Result<Seq<Entry>, StoreError> {
    spec_scan_from(log, cipher_key, 0)
}

/// `scan` with the entries `done` put in front of it.
pub open spec fn after(done: Seq<Entry>, scan: Result<Seq<Entry>, StoreError>) -> Result<
    Seq<Entry>,
    StoreError,
> {
    match scan {
        Err(e) => Err(e),
        Ok(rest) => Ok(done + rest),
    }
}

/// One step of a scan: with a record at `offset`, the scan from `offset` is
/// that record's entry followed by the scan from the record's end.
pub proof fn lemma_scan_step(
    log: Seq<u8>,
    cipher_key: Seq<u8>,
    done: Seq<Entry>,
    offset: nat,
    key: Seq<u8>,
    value: Seq<u8>,
    len: nat,
)
    requires
        spec_read_at(log, cipher_key, offset) == Ok::<DecodedView, StoreError>(
            DecodedView::Record { key, value, len },
        ),
    ensures
        after(done, spec_scan_from(log, cipher_key, offset)) == after(
            done.push(Entry { offset, key, value }),
            spec_scan_from(log, cipher_key, offset + len),
        ),
{
    match spec_scan_from(log, cipher_key, offset + len) {
        Err(_) => {},
        Ok(rest) => {
            let entry = Entry { offset, key, value };
            assert(done + (seq![entry] + rest) =~= done.push(entry) + rest);
        },
    }
}

/// A record read from the log lies within it and has at least a header.
pub proof fn lemma_read_at_within(log: Seq<u8>, cipher_key: Seq<u8>, offset: nat)
    ensures
        spec_read_at(log, cipher_key, offset) matches Ok(DecodedView::Record { len, .. })
            ==> HEADER_LEN <= len && offset + len <= log.len(),
{
    if offset < log.len() {
        lemma_parse_well_formed(log.subrange(offset as int, log.len() as int));
    }
}

/// The index that a run of entries builds: each key with the offset of its
/// last entry.
pub open spec fn index_of(entries: Seq<Entry>) -> Map<Seq<u8>, u64>
    decreases entries.len(),
{
    if entries.len() == 0 {
        Map::empty()
    } else {
        index_of(entries.drop_last()).insert(entries.last().key, entries.last().offset as u64)
    }
}

/// The last entry for `key` in a run of entries.
pub open spec fn last_match(entries: Seq<Entry>, key: Seq<u8>) -> Option<Entry>
    decreases entries.len(),
{
    if entries.len() == 0 {
        None
    } else if entries.last().key == key {
        Some(entries.last())
    } else {
        last_match(entries.drop_last(), key)
    }
}

/// The index that a full scan of `log` builds.
pub open spec fn spec_load(log: Seq<u8>, cipher_key: Seq<u8>) -> Result<
    Map<Seq<u8>, u64>,
    StoreError,
> {
    match spec_scan(log, cipher_key) {
        Err(e) => Err(e),
        Ok(entries) => Ok(index_of(entries)),
    }
}

/// What a search of the whole `log` for `key` finds: the offset and value of
/// the key's last record.
pub open spec fn spec_find(log: Seq<u8>, cipher_key: Seq<u8>, key: Seq<u8>) -> Result<
    Option<(u64, Seq<u8>)>,
    StoreError,
> {
    match spec_scan(log, cipher_key) {
        Err(e) => Err(e),
        Ok(entries) => Ok(
            match last_match(entries, key) {
                None => None,
                Some(entry) => Some((entry.offset as u64, entry.value)),
            },
        ),
    }
}

/// The index of a run of entries holds a key exactly where the run has an
/// entry for it, and then holds the offset of the last such entry.
pub proof fn lemma_index_of_last_match(entries: Seq<Entry>, key: Seq<u8>)
    ensures
        match last_match(entries, key) {
            None => !index_of(entries).contains_key(key),
            Some(entry) => index_of(entries).contains_key(key) && index_of(entries)[key]
                == entry.offset as u64,
        },
    decreases entries.len(),
{
    if entries.len() > 0 {
        lemma_index_of_last_match(entries.drop_last(), key);
    }
}

/// Rebuilding the index and searching the log agree. Both fail on the same
/// logs with the same error; on any other log the index holds `key` exactly
/// where the search finds it, with the offset that the search reports.
pub proof fn lemma_load_agrees_with_find(log: Seq<u8>, cipher_key: Seq<u8>, key: Seq<u8>)
    ensures
        match spec_load(log, cipher_key) {
            Err(e) => spec_find(log, cipher_key, key) == Err::<Option<(u64, Seq<u8>)>, StoreError>(
                e,
            ),
            Ok(index) => match spec_find(log, cipher_key, key) {
                Err(_) => false,
                Ok(None) => !index.contains_key(key),
                Ok(Some((offset, _))) => index.contains_key(key) && index[key] == offset,
            },
        },
{
    if let Ok(entries) = spec_scan(log, cipher_key) {
        lemma_index_of_last_match(entries, key);
    }
}

/// A record that can be read from a log reads the same after more bytes are
/// appended to the log.
pub proof fn lemma_read_at_appended(
    log: Seq<u8>,
    more: Seq<u8>,
    cipher_key: Seq<u8>,
    offset: nat,
)
    requires
        spec_read_at(log, cipher_key, offset) matches Ok(DecodedView::Record { .. }),
    ensures
        spec_read_at(log + more, cipher_key, offset) == spec_read_at(log, cipher_key, offset),
{
    let stream = log.subrange(offset as int, log.len() as int);
    lemma_parse_extended(stream, more);
    assert((log + more).subrange(offset as int, (log + more).len() as int) =~= stream + more);
}

/// Appending a whole record to a log that scans without error adds one entry
/// to the scan, at the old end of the log, and changes no other.
pub proof fn lemma_scan_appended(
    log: Seq<u8>,
    record: Seq<u8>,
    cipher_key: Seq<u8>,
    offset: nat,
    key: Seq<u8>,
    value: Seq<u8>,
)
    requires
        offset <= log.len(),
        spec_scan_from(log, cipher_key, offset) is Ok,
        spec_decode(record, cipher_key) == Ok::<DecodedView, StoreError>(
            DecodedView::Record { key, value, len: record.len() },
        ),
    ensures
        spec_scan_from(log + record, cipher_key, offset) == Ok::<Seq<Entry>, StoreError>(
            spec_scan_from(log, cipher_key, offset)->Ok_0.push(
                Entry { offset: log.len(), key, value },
            ),
        ),
    decreases log.len() - offset,
{
    let longer = log + record;
    let added = Entry { offset: log.len(), key, value };
    lemma_parse_well_formed(record);
    if offset == log.len() {
        assert(longer.subrange(offset as int, longer.len() as int) =~= record);
        assert(spec_scan_from(longer, cipher_key, offset + record.len()) == Ok::<
            Seq<Entry>,
            StoreError,
        >(Seq::empty()));
        assert(seq![added] + Seq::<Entry>::empty() =~= Seq::<Entry>::empty().push(added));
    } else {
        lemma_read_at_appended(log, record, cipher_key, offset);
        lemma_read_at_within(log, cipher_key, offset);
        match spec_read_at(log, cipher_key, offset) {
            Ok(DecodedView::Record { key: k, value: v, len }) => {
                lemma_scan_appended(log, record, cipher_key, offset + len, key, value);
                let rest = spec_scan_from(log, cipher_key, offset + len)->Ok_0;
                let entry = Entry { offset, key: k, value: v };
                assert(seq![entry] + rest.push(added) =~= (seq![entry] + rest).push(added));
            },
            _ => {},
        }
    }
}

/// Length of the record that begins at `offset`, or 0 where none can be
/// read there.
pub open spec fn spec_len_at(log: Seq<u8>, cipher_key: Seq<u8>, offset: nat) -> nat {
    match spec_read_at(log, cipher_key, offset) {
        Ok(DecodedView::Record { len, .. }) => len,
        _ => 0,
    }
}

/// Sum of the lengths of the records of the first `count` entries.
pub open spec fn lens_before(
    log: Seq<u8>,
    cipher_key: Seq<u8>,
    entries: Seq<Entry>,
    count: nat,
) -> nat
    decreases count,
{
    if count == 0 {
        0
    } else {
        lens_before(log, cipher_key, entries, (count - 1) as nat) + spec_len_at(
            log,
            cipher_key,
            entries[count - 1].offset,
        )
    }
}

/// In a scan from `offset`, each record begins where the one before it ends:
/// the offset of an entry is `offset` plus the lengths of all records before
/// it, and the last record ends where the log ends.
pub proof fn lemma_scan_offsets(log: Seq<u8>, cipher_key: Seq<u8>, offset: nat, count: nat)
    requires
        offset <= log.len(),
        spec_scan_from(log, cipher_key, offset) is Ok,
        count <= spec_scan_from(log, cipher_key, offset)->Ok_0.len(),
    ensures
        ({
            let entries = spec_scan_from(log, cipher_key, offset)->Ok_0;
            &&& count < entries.len() ==> entries[count as int].offset == offset + lens_before(
                log,
                cipher_key,
                entries,
                count,
            )
            &&& count == entries.len() ==> log.len() == offset + lens_before(
                log,
                cipher_key,
                entries,
                count,
            )
        }),
    decreases log.len() - offset, count,
{
    let entries = spec_scan_from(log, cipher_key, offset)->Ok_0;
    lemma_read_at_within(log, cipher_key, offset);
    match spec_read_at(log, cipher_key, offset) {
        Ok(DecodedView::Record { key, value, len }) => {
            let rest = spec_scan_from(log, cipher_key, offset + len)->Ok_0;
            assert(entries =~= seq![Entry { offset, key, value }] + rest);
            if count > 0 {
                lemma_scan_offsets(log, cipher_key, offset + len, (count - 1) as nat);
                assert(rest =~= entries.subrange(1, entries.len() as int));
                lemma_lens_before_shifted(log, cipher_key, entries, rest, (count - 1) as nat);
                assert(spec_len_at(log, cipher_key, entries[0].offset) == len);
            }
        },
        _ => {},
    }
}

/// The lengths before an entry, counted in a run and in the run without its
/// first entry, differ by the length of that first entry's record.
proof fn lemma_lens_before_shifted(
    log: Seq<u8>,
    cipher_key: Seq<u8>,
    entries: Seq<Entry>,
    rest: Seq<Entry>,
    count: nat,
)
    requires
        entries.len() > 0,
        rest == entries.subrange(1, entries.len() as int),
        count <= rest.len(),
    ensures
        lens_before(log, cipher_key, entries, count + 1) == spec_len_at(
            log,
            cipher_key,
            entries[0].offset,
        ) + lens_before(log, cipher_key, rest, count),
    decreases count,
{
    if count > 0 {
        lemma_lens_before_shifted(log, cipher_key, entries, rest, (count - 1) as nat);
        assert(rest[count - 1] == entries[count as int]);
    } else {
        assert(lens_before(log, cipher_key, entries, 0) == 0);
    }
}

/// The view of the entries that a scan returned.
pub open spec fn entries_of(found: Seq<(u64, KeyValuePair)>) -> Seq<Entry> {
    Seq::new(
        found.len(),
        |i: int|
            Entry {
                offset: found[i].0 as nat,
                key: found[i].1.key@,
                value: found[i].1.value@,
            },
    )
}

/// The bytes of the log. Its view is those bytes.
pub struct Log {
    bytes: Vec<u8>,
}

impl View for Log {
    type V = Seq<u8>;

    closed spec fn view(&self) -> Seq<u8> {
        self.bytes@
    }
}

impl Log {
    /// A log with the given contents.
    pub fn new(contents: Vec<u8>) -> (log: Log)
        ensures
            log@ == contents@,
    {
        Log { bytes: contents }
    }

    /// The offset of the end of the log: its length in bytes.
    pub fn len(&self) -> (end: u64)
        ensures
            end == self@.len(),
    {
        self.bytes.len() as u64
    }

    /// The bytes of the log.
    pub fn as_bytes(&self) -> (bytes: &[u8])
        ensures
            bytes@ == self@,
    {
        self.bytes.as_slice()
    }

    /// Writes `record` at the end of the log and returns the offset at which
    /// its first byte lies: the length of the log just before.
    pub fn append(&mut self, record: &[u8]) -> (offset: u64)
        ensures
            offset == old(self)@.len(),
            final(self)@ == old(self)@ + record@,
            final(self)@.len() <= u64::MAX,
    {
        let offset = self.bytes.len() as u64;
        self.bytes.extend_from_slice(record);
        assert(self.bytes@ =~= old(self).bytes@ + record@);
        assert(self.bytes.len() == self.bytes@.len());
        offset
    }

    /// Decodes the one record that begins at `offset`.
    pub fn read_at(&self, offset: u64, cipher: &Encrypter) -> (r: Result<Decoded, StoreError>)
        ensures
            match r {
                Ok(decoded) => spec_read_at(self@, cipher@, offset as nat) == Ok::<
                    DecodedView,
                    StoreError,
                >(decoded@),
                Err(e) => spec_read_at(self@, cipher@, offset as nat) == Err::<
                    DecodedView,
                    StoreError,
                >(e),
            },
            r matches Ok(Decoded::Record { len, .. }) ==> HEADER_LEN <= len && offset + len
                <= self@.len(),
    {
        let end = self.bytes.len();
        if offset >= end as u64 {
            return Ok(Decoded::EndOfLog);
        }
        let start = offset as usize;
        decode(&self.bytes.as_slice()[start..end], cipher)
    }

    /// Decodes the records from `offset` to the end of the log, each with
    /// the offset at which it begins. Stops at the first record that is
    /// truncated, corrupt or does not decrypt, and returns its error.
    pub fn scan_from(&self, offset: u64, cipher: &Encrypter) -> (r: Result<
        Vec<(u64, KeyValuePair)>,
        StoreError,
    >)
        ensures
            match r {
                Ok(found) => spec_scan_from(self@, cipher@, offset as nat) == Ok::<
                    Seq<Entry>,
                    StoreError,
                >(entries_of(found@)),
                Err(e) => spec_scan_from(self@, cipher@, offset as nat) == Err::<
                    Seq<Entry>,
                    StoreError,
                >(e),
            },
    {
        let mut found: Vec<(u64, KeyValuePair)> = Vec::new();
        let mut position: u64 = offset;
        let end = self.len();
        assert(entries_of(found@) + Seq::<Entry>::empty() =~= Seq::<Entry>::empty());
        loop
            invariant
                end == self@.len(),
                spec_scan_from(self@, cipher@, offset as nat) == after(
                    entries_of(found@),
                    spec_scan_from(self@, cipher@, position as nat),
                ),
            decreases self@.len() - position,
        {
            match self.read_at(position, cipher) {
                Err(e) => {
                    return Err(e);
                },
                Ok(Decoded::EndOfLog) => {
                    assert(entries_of(found@) + Seq::<Entry>::empty() =~= entries_of(found@));
                    return Ok(found);
                },
                Ok(Decoded::Record { pair, len }) => {
                    proof {
                        lemma_scan_step(
                            self@,
                            cipher@,
                            entries_of(found@),
                            position as nat,
                            pair.key@,
                            pair.value@,
                            len as nat,
                        );
                        assert(entries_of(found@.push((position, pair))) =~= entries_of(
                            found@,
                        ).push(
                            Entry { offset: position as nat, key: pair.key@, value: pair.value@ },
                        ));
                    }
                    found.push((position, pair));
                    position = position + len as u64;
                },
            }
        }
    }
}

} // verus!
