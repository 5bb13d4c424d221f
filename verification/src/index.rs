//! The index: for each key, the offset in the log of its latest record.
//!
//! The index is a cache over the log. It holds one offset per key, a later
//! write for a key replaces the earlier one, and a scan of the log can build
//! it again at any time.
//!
//! The entries lie in a list, each key once. A hash table from the hash of a
//! key to the places in the list of the keys with that hash finds an entry
//! without a walk through the list.

use crate::bytes::bytes_eq;
use crate::encrypter::Encrypter;
use crate::error::StoreError;
use crate::log::{
    after, index_of, lemma_scan_step, spec_load, spec_scan, spec_scan_from, Entry, Log,
};
use crate::record::Decoded;
use std::collections::hash_map::DefaultHasher;
use std::collections::HashMap;
use std::hash::Hasher;
use vstd::prelude::*;
use vstd::slice::slice_to_vec;
use vstd::std_specs::hash::DefaultHasherAdditionalSpecFns;

verus! {

/// The view of a list of keys with their offsets: each key as its bytes.
pub open spec fn pairs_view(pairs: Seq<(Vec<u8>, u64)>) -> Seq<(Seq<u8>, u64)> {
    Seq::new(pairs.len(), |i: int| (pairs[i].0@, pairs[i].1))
}

/// The map that a list of keys with their offsets stands for: where a key
/// occurs more than once, its last offset counts.
pub open spec fn map_of(pairs: Seq<(Seq<u8>, u64)>) -> Map<Seq<u8>, u64>
    decreases pairs.len(),
{
    if pairs.len() == 0 {
        Map::empty()
    } else {
        map_of(pairs.drop_last()).insert(pairs.last().0, pairs.last().1)
    }
}

/// Whether no key occurs twice in the list.
pub open spec fn distinct_keys(pairs: Seq<(Seq<u8>, u64)>) -> bool {
    forall|i: int, j: int| 0 <= i < j < pairs.len() ==> pairs[i].0 != pairs[j].0
}

/// A key that occurs in no pair of the list is not in its map.
pub proof fn lemma_map_of_absent(pairs: Seq<(Seq<u8>, u64)>, key: Seq<u8>)
    requires
        forall|i: int| 0 <= i < pairs.len() ==> pairs[i].0 != key,
    ensures
        !map_of(pairs).contains_key(key),
    decreases pairs.len(),
{
    if pairs.len() > 0 {
        lemma_map_of_absent(pairs.drop_last(), key);
    }
}

/// In a list without repeated keys, each pair is an entry of the map.
pub proof fn lemma_map_of_present(pairs: Seq<(Seq<u8>, u64)>, at: int)
    requires
        distinct_keys(pairs),
        0 <= at < pairs.len(),
    ensures
        map_of(pairs).contains_key(pairs[at].0),
        map_of(pairs)[pairs[at].0] == pairs[at].1,
    decreases pairs.len(),
{
    if at < pairs.len() - 1 {
        lemma_map_of_present(pairs.drop_last(), at);
    }
}

/// In a list without repeated keys, a new offset for the key of one pair is
/// a new offset for that key in the map.
pub proof fn lemma_map_of_update(pairs: Seq<(Seq<u8>, u64)>, at: int, offset: u64)
    requires
        distinct_keys(pairs),
        0 <= at < pairs.len(),
    ensures
        map_of(pairs.update(at, (pairs[at].0, offset))) == map_of(pairs).insert(
            pairs[at].0,
            offset,
        ),
    decreases pairs.len(),
{
    let updated = pairs.update(at, (pairs[at].0, offset));
    if at < pairs.len() - 1 {
        lemma_map_of_update(pairs.drop_last(), at, offset);
        assert(updated.drop_last() =~= pairs.drop_last().update(at, (pairs[at].0, offset)));
        assert(map_of(updated) =~= map_of(pairs).insert(pairs[at].0, offset));
    } else {
        assert(updated.drop_last() =~= pairs.drop_last());
        assert(map_of(updated) =~= map_of(pairs).insert(pairs[at].0, offset));
    }
}

/// In a list without repeated keys, taking out one pair takes its key out of
/// the map.
pub proof fn lemma_map_of_remove(pairs: Seq<(Seq<u8>, u64)>, at: int)
    requires
        distinct_keys(pairs),
        0 <= at < pairs.len(),
    ensures
        map_of(pairs.remove(at)) == map_of(pairs).remove(pairs[at].0),
        distinct_keys(pairs.remove(at)),
    decreases pairs.len(),
{
    let removed = pairs.remove(at);
    if at < pairs.len() - 1 {
        lemma_map_of_remove(pairs.drop_last(), at);
        assert(removed.drop_last() =~= pairs.drop_last().remove(at));
        assert(removed.last() == pairs.last());
        assert(map_of(removed) =~= map_of(pairs).remove(pairs[at].0));
    } else {
        assert(removed =~= pairs.drop_last());
        assert forall|i: int| 0 <= i < removed.len() implies removed[i].0 != pairs[at].0 by {}
        lemma_map_of_absent(removed, pairs[at].0);
        assert(map_of(removed) =~= map_of(pairs).remove(pairs[at].0));
    }
}

/// The hash under which a key is filed.
spec fn hash_of(key: Seq<u8>) -> u64 {
    DefaultHasher::spec_finish(seq![key])
}

/// The places filed under `hash`: none where the table has no such hash.
spec fn bucket_of(buckets: Map<u64, Vec<usize>>, hash: u64) -> Seq<usize> {
    if buckets.contains_key(hash) {
        buckets[hash]@
    } else {
        Seq::empty()
    }
}

/// Whether the table files the place of every pair under the hash of its
/// key, and files no place outside the list.
spec fn filed(pairs: Seq<(Seq<u8>, u64)>, buckets: Map<u64, Vec<usize>>) -> bool {
    &&& forall|i: int|
        0 <= i < pairs.len() ==> bucket_of(buckets, hash_of((#[trigger] pairs[i]).0)).contains(
            i as usize,
        )
    &&& forall|hash: u64, j: int|
        0 <= j < bucket_of(buckets, hash).len() ==> (#[trigger] bucket_of(buckets, hash)[j])
            < pairs.len()
}

/// Computes the hash under which `key` is filed.
fn hash_key(key: &[u8]) -> (hash: u64)
    ensures
        hash == hash_of(key@),
{
    let mut hasher = DefaultHasher::new();
    hasher.write(key);
    assert(hasher@ =~= seq![key@]);
    hasher.finish()
}

/// Files `place` under `hash`, after the places that are filed there.
fn file_place(buckets: &mut HashMap<u64, Vec<usize>>, hash: u64, place: usize)
    ensures
        forall|other: u64|
            #[trigger] bucket_of(final(buckets)@, other) == (if other == hash {
                bucket_of(old(buckets)@, hash).push(place)
            } else {
                bucket_of(old(buckets)@, other)
            }),
{
    let mut bucket = match buckets.remove(&hash) {
        Some(bucket) => bucket,
        None => Vec::new(),
    };
    bucket.push(place);
    buckets.insert(hash, bucket);
}

/// Files every place of `entries` in a new table.
fn file_all(entries: &Vec<(Vec<u8>, u64)>) -> (buckets: HashMap<u64, Vec<usize>>)
    ensures
        filed(pairs_view(entries@), buckets@),
{
    let mut buckets: HashMap<u64, Vec<usize>> = HashMap::new();
    let mut place: usize = 0;
    while place < entries.len()
        invariant
            place <= entries@.len(),
            filed(pairs_view(entries@).subrange(0, place as int), buckets@),
        decreases entries@.len() - place,
    {
        let hash = hash_key(entries[place].0.as_slice());
        let ghost before = buckets@;
        file_place(&mut buckets, hash, place);
        proof {
            lemma_filed_push(
                pairs_view(entries@).subrange(0, place as int),
                before,
                buckets@,
                pairs_view(entries@)[place as int],
            );
            assert(pairs_view(entries@).subrange(0, place as int).push(
                pairs_view(entries@)[place as int],
            ) =~= pairs_view(entries@).subrange(0, place + 1));
        }
        place += 1;
    }
    assert(pairs_view(entries@).subrange(0, place as int) =~= pairs_view(entries@));
    buckets
}

/// A table stays in order when a pair is added at the end of the list and
/// its place is filed under the hash of its key.
proof fn lemma_filed_push(
    pairs: Seq<(Seq<u8>, u64)>,
    before: Map<u64, Vec<usize>>,
    after: Map<u64, Vec<usize>>,
    pair: (Seq<u8>, u64),
)
    requires
        filed(pairs, before),
        pairs.len() < usize::MAX,
        forall|other: u64|
            #[trigger] bucket_of(after, other) == (if other == hash_of(pair.0) {
                bucket_of(before, other).push(pairs.len() as usize)
            } else {
                bucket_of(before, other)
            }),
    ensures
        filed(pairs.push(pair), after),
{
    let longer = pairs.push(pair);
    assert forall|i: int| 0 <= i < longer.len() implies bucket_of(
        after,
        hash_of((#[trigger] longer[i]).0),
    ).contains(i as usize) by {
        let hash = hash_of(longer[i].0);
        if i < pairs.len() {
            assert(longer[i] == pairs[i]);
            let at = choose|at: int|
                0 <= at < bucket_of(before, hash).len() && bucket_of(before, hash)[at]
                    == i as usize;
            assert(bucket_of(after, hash)[at] == i as usize);
        } else {
            assert(bucket_of(after, hash)[bucket_of(before, hash).len() as int] == i as usize);
        }
    }
    assert forall|hash: u64, j: int| 0 <= j < bucket_of(after, hash).len() implies (
    #[trigger] bucket_of(after, hash)[j]) < longer.len() by {
        if j < bucket_of(before, hash).len() {
            assert(bucket_of(after, hash)[j] == bucket_of(before, hash)[j]);
        }
    }
}

/// A table stays in order when a pair of the list gets another offset.
proof fn lemma_filed_update(
    pairs: Seq<(Seq<u8>, u64)>,
    buckets: Map<u64, Vec<usize>>,
    at: int,
    offset: u64,
)
    requires
        filed(pairs, buckets),
        0 <= at < pairs.len(),
    ensures
        filed(pairs.update(at, (pairs[at].0, offset)), buckets),
{
    let updated = pairs.update(at, (pairs[at].0, offset));
    assert forall|i: int| 0 <= i < updated.len() implies bucket_of(
        buckets,
        hash_of((#[trigger] updated[i]).0),
    ).contains(i as usize) by {
        assert(updated[i].0 == pairs[i].0);
    }
}

/// A map from keys to the offsets of their latest records. Its view is that
/// map.
pub struct Index {
    entries: Vec<(Vec<u8>, u64)>,
    buckets: HashMap<u64, Vec<usize>>,
}

impl View for Index {
    type V = Map<Seq<u8>, u64>;

    closed spec fn view(&self) -> Map<Seq<u8>, u64> {
        map_of(pairs_view(self.entries@))
    }
}

impl Index {
    #[verifier::type_invariant]
    spec fn in_order(&self) -> bool {
        &&& distinct_keys(pairs_view(self.entries@))
        &&& filed(pairs_view(self.entries@), self.buckets@)
    }

    /// An index without entries.
    pub fn new() -> (index: Index)
        ensures
            index@ == Map::<Seq<u8>, u64>::empty(),
    {
        Index { entries: Vec::new(), buckets: HashMap::new() }
    }

    /// Builds the index of `log` by a scan from its start: each key with
    /// the offset of its last record. Fails with the error of the first
    /// record that is truncated, corrupt or does not decrypt.
    pub fn rebuild(log: &Log, cipher: &Encrypter) -> (r: Result<Index, StoreError>)
        ensures
            match r {
                Ok(index) => spec_load(log@, cipher@) == Ok::<Map<Seq<u8>, u64>, StoreError>(
                    index@,
                ),
                Err(e) => spec_load(log@, cipher@) == Err::<Map<Seq<u8>, u64>, StoreError>(e),
            },
    {
        let mut index = Index::new();
        let mut position: u64 = 0;
        let end = log.len();
        let ghost mut done: Seq<Entry> = Seq::empty();
        assert(done + Seq::<Entry>::empty() =~= done);
        loop
            invariant
                end == log@.len(),
                index@ == index_of(done),
                spec_scan(log@, cipher@) == after(
                    done,
                    spec_scan_from(log@, cipher@, position as nat),
                ),
            decreases log@.len() - position,
        {
            match log.read_at(position, cipher) {
                Err(e) => {
                    return Err(e);
                },
                Ok(Decoded::EndOfLog) => {
                    assert(done + Seq::<Entry>::empty() =~= done);
                    return Ok(index);
                },
                Ok(Decoded::Record { pair, len }) => {
                    proof {
                        let entry = Entry {
                            offset: position as nat,
                            key: pair.key@,
                            value: pair.value@,
                        };
                        lemma_scan_step(
                            log@,
                            cipher@,
                            done,
                            position as nat,
                            pair.key@,
                            pair.value@,
                            len as nat,
                        );
                        assert(done.push(entry).drop_last() =~= done);
                        done = done.push(entry);
                    }
                    index.insert(pair.key, position);
                    position = position + len as u64;
                },
            }
        }
    }

    /// The place of `key` among the entries.
    fn position(&self, key: &[u8]) -> (at: Option<usize>)
        ensures
            match at {
                Some(i) => i < self.entries@.len() && self.entries@[i as int].0@ == key@,
                None => forall|i: int| 0 <= i < self.entries@.len() ==> self.entries@[i].0@ != key@,
            },
    {
        proof {
            use_type_invariant(self);
        }
        let ghost pairs = pairs_view(self.entries@);
        let hash = hash_key(key);
        match self.buckets.get(&hash) {
            None => {
                assert forall|i: int| 0 <= i < self.entries@.len() implies self.entries@[i].0@
                    != key@ by {
                    assert(pairs[i].0 == self.entries@[i].0@);
                }
                None
            },
            Some(bucket) => {
                let count = self.entries.len();
                let mut j: usize = 0;
                while j < bucket.len()
                    invariant
                        j <= bucket@.len(),
                        count == self.entries@.len(),
                        pairs == pairs_view(self.entries@),
                        bucket@ == bucket_of(self.buckets@, hash),
                        filed(pairs, self.buckets@),
                        forall|k: int| 0 <= k < j ==> pairs[bucket@[k] as int].0 != key@,
                    decreases bucket@.len() - j,
                {
                    let place = bucket[j];
                    assert(bucket_of(self.buckets@, hash)[j as int] < pairs.len());
                    assert(pairs[place as int].0 == self.entries@[place as int].0@);
                    if bytes_eq(self.entries[place].0.as_slice(), key) {
                        return Some(place);
                    }
                    j += 1;
                }
                assert forall|i: int| 0 <= i < self.entries@.len() implies self.entries@[i].0@
                    != key@ by {
                    assert(pairs[i].0 == self.entries@[i].0@);
                    if pairs[i].0 == key@ {
                        let k = choose|k: int|
                            0 <= k < bucket@.len() && bucket@[k] == i as usize;
                        assert(pairs[bucket@[k] as int].0 != key@);
                    }
                }
                None
            },
        }
    }

    /// The offset of the latest record for `key`, if the index has one.
    pub fn lookup(&self, key: &[u8]) -> (offset: Option<u64>)
        ensures
            offset == (if self@.contains_key(key@) {
                Some(self@[key@])
            } else {
                None
            }),
    {
        proof {
            use_type_invariant(self);
        }
        match self.position(key) {
            Some(i) => {
                proof {
                    lemma_map_of_present(pairs_view(self.entries@), i as int);
                }
                Some(self.entries[i].1)
            },
            None => {
                proof {
                    lemma_map_of_absent(pairs_view(self.entries@), key@);
                }
                None
            },
        }
    }

    /// Sets the offset of `key`, in place of any earlier one.
    pub fn insert(&mut self, key: Vec<u8>, offset: u64)
        ensures
            final(self)@ == old(self)@.insert(key@, offset),
    {
        let found = self.position(key.as_slice());
        let mut taken = Index::new();
        core::mem::swap(self, &mut taken);
        proof {
            use_type_invariant(&taken);
        }
        let Index { entries, buckets } = taken;
        let mut entries = entries;
        let mut buckets = buckets;
        let ghost before = pairs_view(entries@);
        match found {
            Some(i) => {
                proof {
                    lemma_map_of_update(before, i as int, offset);
                    lemma_filed_update(before, buckets@, i as int, offset);
                    let after = pairs_view(entries@.update(i as int, (key, offset)));
                    assert(after =~= before.update(i as int, (before[i as int].0, offset)));
                    assert forall|a: int, b: int| 0 <= a < b < after.len() implies after[a].0
                        != after[b].0 by {
                        assert(after[a].0 == before[a].0 && after[b].0 == before[b].0);
                    }
                }
                entries[i] = (key, offset);
            },
            None => {
                let hash = hash_key(key.as_slice());
                let ghost filed_before = buckets@;
                let ghost added = (key@, offset);
                entries.push((key, offset));
                let place = entries.len() - 1;
                file_place(&mut buckets, hash, place);
                proof {
                    let after = pairs_view(entries@);
                    assert(after =~= before.push(added));
                    assert(after.drop_last() =~= before);
                    lemma_filed_push(before, filed_before, buckets@, added);
                    assert forall|a: int, b: int| 0 <= a < b < after.len() implies after[a].0
                        != after[b].0 by {
                        assert(after[a] == before[a]);
                        if b < before.len() {
                            assert(after[b] == before[b]);
                        }
                    }
                }
            },
        }
        *self = Index { entries, buckets };
    }

    /// Takes `key` out of the index and returns the offset it had. The
    /// entries after it move up by one place, so the places are filed
    /// anew.
    pub fn remove(&mut self, key: &[u8]) -> (offset: Option<u64>)
        ensures
            final(self)@ == old(self)@.remove(key@),
            offset == (if old(self)@.contains_key(key@) {
                Some(old(self)@[key@])
            } else {
                None
            }),
    {
        proof {
            use_type_invariant(&*self);
        }
        let ghost before = pairs_view(self.entries@);
        match self.position(key) {
            Some(i) => {
                proof {
                    lemma_map_of_present(before, i as int);
                    lemma_map_of_remove(before, i as int);
                    assert(pairs_view(self.entries@.remove(i as int)) =~= before.remove(i as int));
                }
                let mut taken = Index::new();
                core::mem::swap(self, &mut taken);
                let Index { entries, .. } = taken;
                let mut entries = entries;
                let removed = entries.remove(i);
                let buckets = file_all(&entries);
                *self = Index { entries, buckets };
                Some(removed.1)
            },
            None => {
                proof {
                    lemma_map_of_absent(before, key@);
                    assert(self@ =~= self@.remove(key@));
                }
                None
            },
        }
    }

    /// Takes every entry out of the index.
    pub fn clear(&mut self)
        ensures
            final(self)@ == Map::<Seq<u8>, u64>::empty(),
    {
        *self = Index::new();
    }

    /// The entries of the index as a list in which no key occurs twice, for
    /// a caller that stores them.
    pub fn snapshot(&self) -> (pairs: Vec<(Vec<u8>, u64)>)
        ensures
            map_of(pairs_view(pairs@)) == self@,
            distinct_keys(pairs_view(pairs@)),
    {
        proof {
            use_type_invariant(self);
        }
        let mut pairs: Vec<(Vec<u8>, u64)> = Vec::new();
        let mut i: usize = 0;
        while i < self.entries.len()
            invariant
                i <= self.entries@.len(),
                pairs@.len() == i,
                pairs_view(pairs@) == pairs_view(self.entries@).subrange(0, i as int),
            decreases self.entries@.len() - i,
        {
            let key = slice_to_vec(self.entries[i].0.as_slice());
            let offset = self.entries[i].1;
            proof {
                let so_far = pairs_view(pairs@);
                let next = pairs_view(pairs@.push((key, offset)));
                let wanted = pairs_view(self.entries@).subrange(0, i + 1);
                assert forall|j: int| 0 <= j < next.len() implies next[j] == wanted[j] by {
                    if j < i {
                        assert(so_far[j] == pairs_view(self.entries@).subrange(0, i as int)[j]);
                    }
                }
                assert(next =~= wanted);
            }
            pairs.push((key, offset));
            i += 1;
        }
        assert(pairs_view(pairs@) =~= pairs_view(self.entries@));
        pairs
    }

    /// The index that a stored list of entries stands for. Where a key occurs
    /// more than once in the list, its last offset counts.
    pub fn restore(pairs: Vec<(Vec<u8>, u64)>) -> (index: Index)
        ensures
            index@ == map_of(pairs_view(pairs@)),
    {
        let mut index = Index::new();
        let mut i: usize = 0;
        assert(pairs_view(pairs@).subrange(0, 0) =~= Seq::empty());
        while i < pairs.len()
            invariant
                i <= pairs@.len(),
                index@ == map_of(pairs_view(pairs@).subrange(0, i as int)),
            decreases pairs@.len() - i,
        {
            let key = slice_to_vec(pairs[i].0.as_slice());
            proof {
                let next = pairs_view(pairs@).subrange(0, i + 1);
                assert(next.drop_last() =~= pairs_view(pairs@).subrange(0, i as int));
            }
            index.insert(key, pairs[i].1);
            i += 1;
        }
        assert(pairs_view(pairs@).subrange(0, i as int) =~= pairs_view(pairs@));
        index
    }
}

} // verus!
