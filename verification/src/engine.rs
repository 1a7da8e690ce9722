//! The storage engine: a log and the index over it.
//!
//! A write appends a record to the log and points the index at it. A point
//! lookup follows the index to one record; a search scans the whole log. The
//! index is empty when the engine is opened and is filled by `load` or by
//! the writes that follow.

use crate::bytes::bytes_equal;
use crate::index::{index_of, Index};
use crate::log::{
    is_clean, lemma_records_decode, lemma_scan_appended, read_as, records_from, scan_error,
    scan_stop, Entry, Log,
};
use crate::record::{
    decode_spec, encode, encode_spec, lemma_decode_appended, lemma_decode_stable, Decoded,
    KeyValuePair, RecordError,
};
use vstd::prelude::*;
use vstd::slice::slice_to_vec;

verus! {

/// Whether the record that starts at `offset` decodes and holds `key`.
pub open spec fn points_at(log: Seq<u8>, offset: int, key: Seq<u8>) -> bool {
    decode_spec(log, offset) is Record && decode_spec(log, offset)->key == key
}

/// The last of `records` that holds `key`.
pub open spec fn last_match(records: Seq<Entry>, key: Seq<u8>) -> Option<Entry>
    decreases records.len(),
{
    if records.len() == 0 {
        None
    } else if records.last().key == key {
        Some(records.last())
    } else {
        last_match(records.drop_last(), key)
    }
}

/// The state of an engine: the bytes of its log and the map of its index.
pub struct Store {
    pub log: Seq<u8>,
    pub index: Map<Seq<u8>, u64>,
}

impl Store {
    /// Every key of the index maps to the offset of a record that holds it.
    pub open spec fn sound(self) -> bool {
        forall|k: Seq<u8>| #[trigger]
            self.index.contains_key(k) ==> points_at(self.log, self.index[k] as int, k)
    }

    /// The value that a point lookup of `key` yields.
    pub open spec fn get(self, key: Seq<u8>) -> Option<Seq<u8>> {
        if self.index.contains_key(key) {
            Some(decode_spec(self.log, self.index[key] as int)->value)
        } else {
            None
        }
    }

    /// The record that a search of the whole log yields for `key`.
    pub open spec fn find(self, key: Seq<u8>) -> Option<Entry> {
        last_match(records_from(self.log, 0), key)
    }

    /// The state after `value` has been written under `key`.
    pub open spec fn insert(self, key: Seq<u8>, value: Seq<u8>) -> Store {
        Store {
            log: self.log + encode_spec(key, value),
            index: self.index.insert(key, self.log.len() as u64),
        }
    }

    /// The state after `key` has been deleted: an empty value is written.
    pub open spec fn delete(self, key: Seq<u8>) -> Store {
        self.insert(key, Seq::empty())
    }

    /// The state after the index has been rebuilt from the log.
    pub open spec fn load(self) -> Store {
        Store { log: self.log, index: index_of(records_from(self.log, 0)) }
    }
}

/// The bytes of an optional value.
pub open spec fn value_view(found: Option<Vec<u8>>) -> Option<Seq<u8>> {
    match found {
        Some(value) => Some(value@),
        None => None,
    }
}

/// Whether a search result is the record that `expected` describes.
pub open spec fn found_as(found: Option<(u64, Vec<u8>)>, expected: Option<Entry>) -> bool {
    match expected {
        Some(entry) => found matches Some((offset, value)) && offset == entry.offset && value@
            == entry.value,
        None => found is None,
    }
}

/// What a write of `value` under `key` to a clean log means for a search:
/// it yields the written record for the key and what it yielded before for
/// every other key, and the log is clean again.
pub open spec fn written(before: Store, after: Store, key: Seq<u8>, value: Seq<u8>) -> bool {
    &&& is_clean(after.log)
    &&& after.find(key) == Some(Entry { offset: before.log.len() as int, key, value })
    &&& forall|other: Seq<u8>| other != key ==> #[trigger] after.find(other) == before.find(other)
}

/// An index stays sound when the log grows.
pub proof fn lemma_sound_after_append(store: Store, more: Seq<u8>)
    requires
        store.sound(),
    ensures
        (Store { log: store.log + more, index: store.index }).sound(),
{
    let grown = Store { log: store.log + more, index: store.index };
    assert forall|k: Seq<u8>| #[trigger] grown.index.contains_key(k) implies points_at(
        grown.log,
        grown.index[k] as int,
        k,
    ) by {
        lemma_decode_stable(store.log, more, store.index[k] as int);
    }
}

/// A write keeps the index sound.
pub proof fn lemma_sound_after_insert(store: Store, key: Seq<u8>, value: Seq<u8>)
    requires
        store.sound(),
        key.len() <= u32::MAX,
        value.len() <= u32::MAX,
        store.log.len() <= u64::MAX,
    ensures
        store.insert(key, value).sound(),
        store.insert(key, value).get(key) == Some(value),
        forall|other: Seq<u8>|
            other != key ==> #[trigger] store.insert(key, value).get(other) == store.get(other),
{
    let next = store.insert(key, value);
    let grown = Store { log: next.log, index: store.index };
    lemma_sound_after_append(store, encode_spec(key, value));
    lemma_decode_appended(store.log, key, value);
    assert forall|k: Seq<u8>| #[trigger] next.index.contains_key(k) implies points_at(
        next.log,
        next.index[k] as int,
        k,
    ) by {
        if k != key {
            assert(grown.index.contains_key(k));
        }
    }
}

/// The index that a sequence of records folds into is sound, if each of the
/// records decodes at its offset.
pub proof fn lemma_index_of_sound(log: Seq<u8>, records: Seq<Entry>)
    requires
        log.len() <= u64::MAX,
        forall|i: int|
            0 <= i < records.len() ==> 0 <= (#[trigger] records[i]).offset <= log.len()
                && points_at(log, records[i].offset, records[i].key),
    ensures
        (Store { log, index: index_of(records) }).sound(),
    decreases records.len(),
{
    if records.len() > 0 {
        let earlier = Store { log, index: index_of(records.drop_last()) };
        let all = Store { log, index: index_of(records) };
        let last = records.last();
        lemma_index_of_sound(log, records.drop_last());
        assert forall|k: Seq<u8>| #[trigger] all.index.contains_key(k) implies points_at(
            log,
            all.index[k] as int,
            k,
        ) by {
            if k != last.key {
                assert(earlier.index.contains_key(k));
            }
        }
    }
}

/// The index rebuilt from a log is sound.
pub proof fn lemma_load_sound(store: Store)
    requires
        store.log.len() <= u64::MAX,
    ensures
        store.load().sound(),
{
    let records = records_from(store.log, 0);
    assert forall|i: int| 0 <= i < records.len() implies 0 <= (#[trigger] records[i]).offset
        <= store.log.len() && points_at(store.log, records[i].offset, records[i].key) by {
        lemma_records_decode(store.log, 0, i);
    }
    lemma_index_of_sound(store.log, records);
}

/// The index that records fold into holds a key exactly if one of the
/// records holds it, and then maps it to the offset of the last such record.
pub proof fn lemma_index_of_last_match(records: Seq<Entry>, key: Seq<u8>)
    ensures
        index_of(records).contains_key(key) <==> last_match(records, key) is Some,
        last_match(records, key) matches Some(entry) ==> index_of(records)[key] == entry.offset
            as u64 && entry.key == key && exists|i: int|
            0 <= i < records.len() && records[i] == entry,
    decreases records.len(),
{
    if records.len() > 0 {
        let earlier = records.drop_last();
        lemma_index_of_last_match(earlier, key);
        if records.last().key == key {
            assert(records[records.len() - 1] == records.last());
        } else if last_match(earlier, key) is Some {
            let found = last_match(earlier, key)->0;
            let i = choose|i: int| 0 <= i < earlier.len() && earlier[i] == found;
            assert(records[i] == earlier[i]);
        }
    }
}

/// After a load, a point lookup and a search of the whole log yield the same
/// value for every key.
pub proof fn lemma_load_agrees_with_find(store: Store, key: Seq<u8>)
    requires
        store.log.len() <= u64::MAX,
    ensures
        store.load().sound(),
        store.load().get(key) == match store.load().find(key) {
            Some(entry) => Some(entry.value),
            None => None,
        },
{
    let records = records_from(store.log, 0);
    lemma_load_sound(store);
    lemma_index_of_last_match(records, key);
    if last_match(records, key) is Some {
        let entry = last_match(records, key)->0;
        let i = choose|i: int| 0 <= i < records.len() && records[i] == entry;
        lemma_records_decode(store.log, 0, i);
    }
}

/// A write to a clean log leaves the log clean, and a load after the write
/// gives the index that a load before it gives, with the written key pointed
/// at the new record. So an index that is kept by the writes of a session is
/// the one that a load on reopening rebuilds.
pub proof fn lemma_insert_then_load(store: Store, key: Seq<u8>, value: Seq<u8>)
    requires
        is_clean(store.log),
        key.len() <= u32::MAX,
        value.len() <= u32::MAX,
    ensures
        is_clean(store.insert(key, value).log),
        scan_error(store.insert(key, value).log, 0) is None,
        store.insert(key, value).load().index == store.load().index.insert(
            key,
            store.log.len() as u64,
        ),
        store.index == store.load().index ==> store.insert(key, value).load()
            == store.insert(key, value),
{
    let entry = Entry { offset: store.log.len() as int, key, value };
    let before = records_from(store.log, 0);
    lemma_scan_appended(store.log, key, value, 0);
    assert(before.push(entry).drop_last() == before);
}

/// After a write to a clean log, a search yields the written record for the
/// key and what it yielded before for every other key, and the log is clean.
pub proof fn lemma_find_after_insert(store: Store, key: Seq<u8>, value: Seq<u8>)
    requires
        is_clean(store.log),
        key.len() <= u32::MAX,
        value.len() <= u32::MAX,
    ensures
        is_clean(store.insert(key, value).log),
        store.insert(key, value).find(key) == Some(
            Entry { offset: store.log.len() as int, key, value },
        ),
        forall|other: Seq<u8>|
            other != key ==> #[trigger] store.insert(key, value).find(other) == store.find(other),
{
    let entry = Entry { offset: store.log.len() as int, key, value };
    let before = records_from(store.log, 0);
    lemma_scan_appended(store.log, key, value, 0);
    assert(before.push(entry).drop_last() == before);
}

/// The later of two writes to a key wins: a point lookup yields the second
/// value, and so does a search, if the log was clean before the writes. The
/// first record stays in the log, where the index no longer points.
pub proof fn lemma_last_write_wins(store: Store, key: Seq<u8>, first: Seq<u8>, second: Seq<u8>)
    requires
        key.len() <= u32::MAX,
        first.len() <= u32::MAX,
        second.len() <= u32::MAX,
        store.log.len() + encode_spec(key, first).len() <= u64::MAX,
    ensures
        ({
            let after = store.insert(key, first).insert(key, second);
            &&& after.get(key) == Some(second)
            &&& is_clean(store.log) ==> after.find(key) == Some(
                Entry { offset: after.index[key] as int, key, value: second },
            )
            &&& decode_spec(after.log, store.log.len() as int) matches Decoded::Record {
                key: k,
                value: v,
                ..
            } && k == key && v == first
            &&& after.index[key] != store.log.len()
        }),
{
    let middle = store.insert(key, first);
    let after = middle.insert(key, second);
    lemma_decode_appended(store.log, key, first);
    lemma_decode_appended(middle.log, key, second);
    lemma_decode_stable(middle.log, encode_spec(key, second), store.log.len() as int);
    if is_clean(store.log) {
        lemma_scan_appended(store.log, key, first, 0);
        lemma_scan_appended(middle.log, key, second, 0);
    }
}

/// After a delete the key is still in the index, and a point lookup yields
/// the empty value.
pub proof fn lemma_delete_leaves_empty_value(store: Store, key: Seq<u8>)
    requires
        key.len() <= u32::MAX,
        store.log.len() <= u64::MAX,
    ensures
        store.delete(key).index.contains_key(key),
        store.delete(key).get(key) == Some(Seq::<u8>::empty()),
{
    lemma_decode_appended(store.log, key, Seq::empty());
}

/// An append-only key-value store.
#[derive(Debug)]
pub struct OxideDB {
    log: Log,
    index: Index,
}

impl View for OxideDB {
    type V = Store;

    closed spec fn view(&self) -> Store {
        Store { log: self.log@, index: self.index@ }
    }
}

impl OxideDB {
    /// The invariant of the index as a data structure.
    pub closed spec fn index_wf(&self) -> bool {
        self.index.wf()
    }

    /// The invariant of the engine: the index is well formed and sound.
    pub open spec fn wf(&self) -> bool {
        self.index_wf() && self@.sound()
    }

    /// The log of an engine fits the machine's offsets, which the laws of
    /// `Store` ask for.
    pub proof fn lemma_fits(&self)
        ensures
            self@.log.len() <= usize::MAX,
    {
        self.log.lemma_fits();
    }

    /// An engine over a log with the given contents. The index starts empty:
    /// keys that the log holds are found by `get` only after `load`.
    pub fn open(contents: Vec<u8>) -> (db: OxideDB)
        ensures
            db.wf(),
            db@.log == contents@,
            db@.index == Map::<Seq<u8>, u64>::empty(),
            contents@.len() == 0 ==> is_clean(db@.log),
    {
        OxideDB { log: Log::open(contents), index: Index::new() }
    }

    /// The log of the engine.
    pub fn log(&self) -> (log: &Log)
        ensures
            log@ == self@.log,
    {
        &self.log
    }

    /// The index of the engine.
    pub fn index(&self) -> (index: &Index)
        ensures
            index@ == self@.index,
            self.index_wf() ==> index.wf(),
    {
        &self.index
    }

    /// Takes `key` out of the index, and returns the offset it mapped to.
    /// The log is left as it is.
    pub fn remove_from_index(&mut self, key: &[u8]) -> (previous: Option<u64>)
        requires
            old(self).wf(),
        ensures
            final(self).wf(),
            final(self)@ == (Store {
                log: old(self)@.log,
                index: old(self)@.index.remove(key@),
            }),
            previous == (if old(self)@.index.contains_key(key@) {
                Some(old(self)@.index[key@])
            } else {
                None
            }),
    {
        let previous: Option<u64> = self.index.remove(key);
        assert forall|k: Seq<u8>| #[trigger] self@.index.contains_key(k) implies points_at(
            self@.log,
            self@.index[k] as int,
            k,
        ) by {
            assert(old(self)@.index.contains_key(k));
        }
        previous
    }

    /// Empties the index. The log is left as it is.
    pub fn clear_index(&mut self)
        ensures
            final(self).wf(),
            final(self)@ == (Store { log: old(self)@.log, index: Map::empty() }),
    {
        self.index = Index::new();
    }

    /// Rebuilds the index from a scan of the whole log, and replaces the
    /// index with it. Fails on the first corrupt record, and then leaves the
    /// index as it was.
    pub fn load(&mut self) -> (res: Result<(), RecordError>)
        requires
            old(self).wf(),
        ensures
            final(self).wf(),
            match scan_error(old(self)@.log, 0) {
                Some(e) => res == Err::<(), _>(e) && final(self)@ == old(self)@,
                None => res == Ok::<(), RecordError>(()) && final(self)@ == old(self)@.load(),
            },
    {
        match Index::rebuild(self.log.scan()) {
            Ok(index) => {
                self.index = index;
                proof {
                    self.lemma_fits();
                    lemma_load_sound(old(self)@);
                }
                Ok(())
            },
            Err(e) => Err(e),
        }
    }

    /// The offset of the end of the log, where the next record will start.
    pub fn seek_to_end(&self) -> (offset: u64)
        ensures
            offset == self@.log.len(),
    {
        self.log.end()
    }

    /// Looks `key` up in the index and reads the value of the record that
    /// the index points at. A key that the index does not hold is absent.
    pub fn get(&self, key: &[u8]) -> (res: Result<Option<Vec<u8>>, RecordError>)
        requires
            self.wf(),
        ensures
            res matches Ok(found) && value_view(found) == self@.get(key@),
    {
        let position: u64 = match self.index.get(key) {
            None => {
                return Ok(None);
            },
            Some(position) => position,
        };
        match self.get_at(position) {
            Ok(kv) => Ok(Some(kv.value)),
            Err(e) => Err(e),
        }
    }

    /// Decodes the record that starts at `position`.
    pub fn get_at(&self, position: u64) -> (res: Result<KeyValuePair, RecordError>)
        ensures
            read_as(res, decode_spec(self@.log, position as int)),
    {
        self.log.read_at(position)
    }

    /// Scans the whole log for `target` and returns the offset and the value
    /// of the last record that holds it. The index is not consulted. Fails on
    /// the first corrupt record.
    pub fn find(&self, target: &[u8]) -> (res: Result<Option<(u64, Vec<u8>)>, RecordError>)
        ensures
            match scan_error(self@.log, 0) {
                Some(e) => res == Err::<Option<(u64, Vec<u8>)>, _>(e),
                None => res matches Ok(found) && found_as(found, self@.find(target@)),
            },
    {
        let ghost log = self@.log;
        let ghost mut seen: Seq<Entry> = Seq::empty();
        let mut scan = self.log.scan();
        let mut found: Option<(u64, Vec<u8>)> = None;
        loop
            invariant
                log == self@.log,
                scan.log() == log,
                found_as(found, last_match(seen, target@)),
                records_from(log, 0) == seen + records_from(log, scan.position()),
                scan_stop(log, 0) == scan_stop(log, scan.position()),
            decreases log.len() - scan.position(),
        {
            let ghost pos = scan.position();
            match scan.next_record() {
                Ok(Some((offset, kv))) => {
                    proof {
                        let entry = Entry { offset: pos, key: kv.key@, value: kv.value@ };
                        assert(seen.push(entry).drop_last() == seen);
                        seen = seen.push(entry);
                    }
                    if bytes_equal(kv.key.as_slice(), target) {
                        found = Some((offset, kv.value));
                    }
                },
                Ok(None) => {
                    return Ok(found);
                },
                Err(e) => {
                    return Err(e);
                },
            }
        }
    }

    /// Writes `value` under `key`: appends the record to the log and points
    /// the index at it.
    pub fn insert(&mut self, key: &[u8], value: &[u8])
        requires
            old(self).wf(),
            key@.len() <= u32::MAX,
            value@.len() <= u32::MAX,
        ensures
            final(self).wf(),
            final(self)@ == old(self)@.insert(key@, value@),
            final(self)@.get(key@) == Some(value@),
            forall|other: Seq<u8>|
                other != key@ ==> #[trigger] final(self)@.get(other) == old(self)@.get(other),
            is_clean(old(self)@.log) ==> written(old(self)@, final(self)@, key@, value@),
    {
        let position: u64 = self.insert_but_ignore_index(key, value);
        self.index.insert(slice_to_vec(key), position);
        proof {
            lemma_sound_after_insert(old(self)@, key@, value@);
            if is_clean(old(self)@.log) {
                lemma_find_after_insert(old(self)@, key@, value@);
            }
        }
    }

    /// Appends the record of `key` and `value` to the log and returns the
    /// offset at which it starts. The index is left as it is.
    pub fn insert_but_ignore_index(&mut self, key: &[u8], value: &[u8]) -> (position: u64)
        requires
            old(self).wf(),
            key@.len() <= u32::MAX,
            value@.len() <= u32::MAX,
        ensures
            final(self).wf(),
            final(self)@.log == old(self)@.log + encode_spec(key@, value@),
            final(self)@.index == old(self)@.index,
            position == old(self)@.log.len(),
    {
        let record: Vec<u8> = encode(key, value);
        let position: u64 = self.log.append(record.as_slice());
        proof {
            lemma_sound_after_append(old(self)@, encode_spec(key@, value@));
        }
        position
    }

    /// Writes `value` under `key`, as `insert` does: the new record shadows
    /// the earlier ones of the key.
    pub fn update(&mut self, key: &[u8], value: &[u8])
        requires
            old(self).wf(),
            key@.len() <= u32::MAX,
            value@.len() <= u32::MAX,
        ensures
            final(self).wf(),
            final(self)@ == old(self)@.insert(key@, value@),
            final(self)@.get(key@) == Some(value@),
            forall|other: Seq<u8>|
                other != key@ ==> #[trigger] final(self)@.get(other) == old(self)@.get(other),
            is_clean(old(self)@.log) ==> written(old(self)@, final(self)@, key@, value@),
    {
        self.insert(key, value)
    }

    /// Deletes `key`: writes an empty value under it. The key stays in the
    /// index, and a lookup yields the empty value.
    pub fn delete(&mut self, key: &[u8])
        requires
            old(self).wf(),
            key@.len() <= u32::MAX,
        ensures
            final(self).wf(),
            final(self)@ == old(self)@.delete(key@),
            final(self)@.get(key@) == Some(Seq::<u8>::empty()),
            forall|other: Seq<u8>|
                other != key@ ==> #[trigger] final(self)@.get(other) == old(self)@.get(other),
            is_clean(old(self)@.log) ==> written(old(self)@, final(self)@, key@, Seq::empty()),
    {
        let empty: Vec<u8> = Vec::new();
        self.insert(key, empty.as_slice())
    }
}

} // verus!
