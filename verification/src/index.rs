//! The index: for each key, the offset of its most recent record.
//!
//! The keys are kept in a hash map of buckets. The bucket of a key is found
//! by the CRC-32 of the key, and holds the keys of that checksum one by one,
//! so that a lookup compares the key with those few keys only.

use crate::bytes::bytes_equal;
use crate::checksum::{checksum_ieee, crc32_ieee};
use crate::log::{records_from, scan_error, scan_stop, Entry, Scan};
use crate::record::{KeyValuePair, RecordError};
use std::collections::HashMap;
use vstd::prelude::*;

verus! {

/// The map that a sequence of records folds into: each key maps to the
/// offset of its last record.
pub open spec fn index_of(records: Seq<Entry>) -> Map<Seq<u8>, u64>
    decreases records.len(),
{
    if records.len() == 0 {
        Map::empty()
    } else {
        index_of(records.drop_last()).insert(records.last().key, records.last().offset as u64)
    }
}

/// One key of the index and the offset it maps to.
#[derive(Debug)]
struct Slot {
    key: Vec<u8>,
    offset: u64,
}

/// The keys of the index that share a checksum, each of them once.
#[derive(Debug)]
struct Bucket {
    slots: Vec<Slot>,
}

impl Bucket {
    /// Whether one of the slots holds `key`.
    spec fn holds(&self, key: Seq<u8>) -> bool {
        exists|i: int| 0 <= i < self.slots@.len() && (#[trigger] self.slots@[i]).key@ == key
    }

    /// A slot that holds `key`.
    spec fn slot_of(&self, key: Seq<u8>) -> int {
        choose|i: int| 0 <= i < self.slots@.len() && (#[trigger] self.slots@[i]).key@ == key
    }

    /// The pairs of the bucket as a map.
    spec fn map(&self) -> Map<Seq<u8>, u64> {
        Map::new(
            |key: Seq<u8>| self.holds(key),
            |key: Seq<u8>| self.slots@[self.slot_of(key)].offset,
        )
    }

    /// No key occurs in two slots.
    spec fn wf(&self) -> bool {
        forall|i: int, j: int|
            0 <= i < j < self.slots@.len() ==> (#[trigger] self.slots@[i]).key@ != (
            #[trigger] self.slots@[j]).key@
    }

    /// A bucket that holds no key.
    fn new() -> (bucket: Bucket)
        ensures
            bucket.wf(),
            bucket.map() == Map::<Seq<u8>, u64>::empty(),
            forall|key: Seq<u8>| !bucket.holds(key),
    {
        Bucket { slots: Vec::new() }
    }

    /// Whether the bucket holds no key.
    fn is_empty(&self) -> (empty: bool)
        ensures
            empty <==> forall|key: Seq<u8>| !self.holds(key),
    {
        if self.slots.len() == 0 {
            true
        } else {
            assert(self.holds(self.slots@[0].key@));
            false
        }
    }

    /// The slot that holds `key`, if there is one.
    fn position(&self, key: &[u8]) -> (res: Option<usize>)
        ensures
            match res {
                Some(i) => i < self.slots@.len() && self.slots@[i as int].key@ == key@,
                None => !self.holds(key@),
            },
    {
        let n: usize = self.slots.len();
        let mut i: usize = 0;
        while i < n
            invariant
                n == self.slots@.len(),
                i <= n,
                forall|j: int| 0 <= j < i ==> (#[trigger] self.slots@[j]).key@ != key@,
            decreases n - i,
        {
            if bytes_equal(self.slots[i].key.as_slice(), key) {
                return Some(i);
            }
            i = i + 1;
        }
        None
    }

    /// The offset that `key` maps to, if the bucket holds it.
    fn get(&self, key: &[u8]) -> (res: Option<u64>)
        requires
            self.wf(),
        ensures
            res == (if self.holds(key@) {
                Some(self.map()[key@])
            } else {
                None
            }),
    {
        match self.position(key) {
            Some(i) => Some(self.slots[i].offset),
            None => None,
        }
    }

    /// Maps `key` to `offset`, in the slot that holds the key or in a new
    /// one, and returns the offset it mapped to before.
    fn insert(&mut self, key: Vec<u8>, offset: u64) -> (previous: Option<u64>)
        requires
            old(self).wf(),
        ensures
            final(self).wf(),
            final(self).map() == old(self).map().insert(key@, offset),
            forall|k: Seq<u8>| final(self).holds(k) <==> (k == key@ || old(self).holds(k)),
            previous == (if old(self).holds(key@) {
                Some(old(self).map()[key@])
            } else {
                None
            }),
    {
        let ghost k = key@;
        let previous: Option<u64> = match self.position(key.as_slice()) {
            Some(i) => {
                let previous: u64 = self.slots[i].offset;
                self.slots.set(i, Slot { key, offset });
                Some(previous)
            },
            None => {
                self.slots.push(Slot { key, offset });
                assert(self.slots@[self.slots@.len() - 1].key@ == k);
                None
            },
        };
        proof {
            assert forall|m: Seq<u8>| self.holds(m) <==> (m == k || old(self).holds(m)) by {
                if old(self).holds(m) {
                    assert(self.slots@[old(self).slot_of(m)].key@ == m);
                }
            }
        }
        previous
    }

    /// Takes the slot of `key` out of the bucket, and returns the offset
    /// that the key mapped to.
    fn remove(&mut self, key: &[u8]) -> (previous: Option<u64>)
        requires
            old(self).wf(),
        ensures
            final(self).wf(),
            final(self).map() == old(self).map().remove(key@),
            forall|k: Seq<u8>| final(self).holds(k) <==> (k != key@ && old(self).holds(k)),
            previous == (if old(self).holds(key@) {
                Some(old(self).map()[key@])
            } else {
                None
            }),
    {
        match self.position(key) {
            Some(i) => {
                let slot: Slot = self.slots.remove(i);
                proof {
                    assert forall|m: Seq<u8>| self.holds(m) <==> (m != key@ && old(self).holds(
                        m,
                    )) by {
                        if old(self).holds(m) && m != key@ {
                            let from = old(self).slot_of(m);
                            let to = if from < i {
                                from
                            } else {
                                from - 1
                            };
                            assert(self.slots@[to].key@ == m);
                        }
                    }
                }
                Some(slot.offset)
            },
            None => None,
        }
    }
}

/// The error of `bincode::serialize`. It is handed on and never looked into.
#[verifier::external_type_specification]
#[verifier::external_body]
pub struct ExErrorKind(bincode::ErrorKind);

/// A map from keys to offsets. The keys are kept in buckets, one for each
/// checksum that a key of the index has.
#[derive(Debug)]
pub struct Index {
    buckets: HashMap<u32, Bucket>,
}

impl View for Index {
    type V = Map<Seq<u8>, u64>;

    closed spec fn view(&self) -> Map<Seq<u8>, u64> {
        Map::new(
            |key: Seq<u8>|
                self.buckets@.contains_key(crc32_ieee(key)) && self.buckets@[crc32_ieee(
                    key,
                )].holds(key),
            |key: Seq<u8>| self.buckets@[crc32_ieee(key)].map()[key],
        )
    }
}

impl Index {
    /// The invariant of the index: no bucket holds a key twice, and each
    /// bucket holds keys of its own checksum only.
    pub closed spec fn wf(&self) -> bool {
        forall|h: u32| #[trigger]
            self.buckets@.contains_key(h) ==> self.buckets@[h].wf() && forall|key: Seq<u8>|
                #[trigger] self.buckets@[h].holds(key) ==> crc32_ieee(key) == h
    }

    /// An index that maps no key.
    pub fn new() -> (index: Index)
        ensures
            index.wf(),
            index@ == Map::<Seq<u8>, u64>::empty(),
    {
        Index { buckets: HashMap::new() }
    }

    /// Folds the records that `scan` yields from its position on into a new
    /// index, in which a later record of a key replaces an earlier one. Fails
    /// with the error of the first corrupt record.
    pub fn rebuild(scan: Scan<'_>) -> (res: Result<Index, RecordError>)
        ensures
            match scan_error(scan.log(), scan.position()) {
                Some(e) => res == Err::<Index, _>(e),
                None => res matches Ok(index) && index.wf() && index@ == index_of(
                    records_from(scan.log(), scan.position()),
                ),
            },
    {
        let ghost log = scan.log();
        let ghost start = scan.position();
        let ghost mut seen: Seq<Entry> = Seq::empty();
        let mut cursor = scan;
        let mut index: Index = Index::new();
        loop
            invariant
                log == scan.log(),
                start == scan.position(),
                cursor.log() == log,
                index.wf(),
                index@ == index_of(seen),
                records_from(log, start) == seen + records_from(log, cursor.position()),
                scan_stop(log, start) == scan_stop(log, cursor.position()),
            decreases log.len() - cursor.position(),
        {
            let ghost pos = cursor.position();
            match cursor.next_record() {
                Ok(Some((offset, kv))) => {
                    let KeyValuePair { key, value } = kv;
                    proof {
                        let entry = Entry { offset: pos, key: key@, value: value@ };
                        assert(seen.push(entry).drop_last() == seen);
                        seen = seen.push(entry);
                    }
                    index.insert(key, offset);
                },
                Ok(None) => {
                    return Ok(index);
                },
                Err(e) => {
                    return Err(e);
                },
            }
        }
    }

    /// Calls `bincode::serialize` on a `HashMap` that holds the pairs of the
    /// index. The bytes depend on the order in which the map is walked, so
    /// nothing is said of them, nor of when the call fails.
    #[verifier::external_body]
    pub(crate) fn serialize(&self) -> (res: Result<Vec<u8>, Box<bincode::ErrorKind>>) {
        let map: HashMap<Vec<u8>, u64> = self.buckets.values().flat_map(
            |bucket| bucket.slots.iter(),
        ).map(|slot| (slot.key.clone(), slot.offset)).collect();
        bincode::serialize(&map)
    }

    /// The offset that `key` maps to, if it is in the index.
    pub fn get(&self, key: &[u8]) -> (res: Option<u64>)
        requires
            self.wf(),
        ensures
            res == (if self@.contains_key(key@) {
                Some(self@[key@])
            } else {
                None
            }),
    {
        let h: u32 = checksum_ieee(key);
        match self.buckets.get(&h) {
            Some(bucket) => bucket.get(key),
            None => None,
        }
    }

    /// Maps `key` to `offset`, and returns the offset it mapped to before.
    pub fn insert(&mut self, key: Vec<u8>, offset: u64) -> (previous: Option<u64>)
        requires
            old(self).wf(),
        ensures
            final(self).wf(),
            final(self)@ == old(self)@.insert(key@, offset),
            previous == (if old(self)@.contains_key(key@) {
                Some(old(self)@[key@])
            } else {
                None
            }),
    {
        let h: u32 = checksum_ieee(key.as_slice());
        let mut bucket: Bucket = match self.buckets.remove(&h) {
            Some(bucket) => bucket,
            None => Bucket::new(),
        };
        let previous: Option<u64> = bucket.insert(key, offset);
        self.buckets.insert(h, bucket);
        previous
    }

    /// Takes `key` out of the index, and returns the offset it mapped to.
    pub fn remove(&mut self, key: &[u8]) -> (previous: Option<u64>)
        requires
            old(self).wf(),
        ensures
            final(self).wf(),
            final(self)@ == old(self)@.remove(key@),
            previous == (if old(self)@.contains_key(key@) {
                Some(old(self)@[key@])
            } else {
                None
            }),
    {
        let h: u32 = checksum_ieee(key);
        match self.buckets.remove(&h) {
            Some(bucket) => {
                let mut bucket: Bucket = bucket;
                let previous: Option<u64> = bucket.remove(key);
                if !bucket.is_empty() {
                    self.buckets.insert(h, bucket);
                }
                previous
            },
            None => None,
        }
    }
}

} // verus!
