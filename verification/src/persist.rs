//! Keeping a snapshot of the index in the log itself.
//!
//! The snapshot is the value of an ordinary record under a key that the
//! caller reserves for it. To the engine it is a write like any other.

use crate::engine::{OxideDB, Store};
use vstd::prelude::*;

verus! {

/// The state after a snapshot of the index has been written under `key`:
/// the log has grown by the record of `key` and `snapshot`, and the index
/// holds that record alone.
pub open spec fn snapshot_stored(before: Store, key: Seq<u8>, snapshot: Seq<u8>) -> Store {
    (Store { log: before.log, index: Map::empty() }).insert(key, snapshot)
}

/// Writes `index_as_bytes` under `index_key` and makes that record the only
/// one that the index holds.
pub fn store_index_bytes(db: &mut OxideDB, index_key: &[u8], index_as_bytes: &[u8])
    requires
        old(db).wf(),
        index_key@.len() <= u32::MAX,
        index_as_bytes@.len() <= u32::MAX,
    ensures
        final(db).wf(),
        final(db)@ == snapshot_stored(old(db)@, index_key@, index_as_bytes@),
{
    db.clear_index();
    db.insert(index_key, index_as_bytes);
}

/// Takes `index_key` out of the index, serialises what is left, and writes
/// the bytes under `index_key`, which is then the only key of the index.
/// Returns whether the snapshot was written. It is not written where it
/// cannot be serialised or its length does not fit a record; the index has
/// then lost `index_key` and the log is as it was.
pub fn store_index_on_disk(db: &mut OxideDB, index_key: &[u8]) -> (stored: bool)
    requires
        old(db).wf(),
        index_key@.len() <= u32::MAX,
    ensures
        final(db).wf(),
        stored ==> exists|snapshot: Seq<u8>|
            snapshot.len() <= u32::MAX && final(db)@ == #[trigger] snapshot_stored(
                old(db)@,
                index_key@,
                snapshot,
            ),
        !stored ==> final(db)@ == (Store {
            log: old(db)@.log,
            index: old(db)@.index.remove(index_key@),
        }),
{
    db.remove_from_index(index_key);
    match db.index().serialize() {
        Ok(index_as_bytes) => {
            if index_as_bytes.len() > u32::MAX as usize {
                return false;
            }
            store_index_bytes(db, index_key, index_as_bytes.as_slice());
            assert(db@ == snapshot_stored(old(db)@, index_key@, index_as_bytes@));
            true
        },
        Err(_) => false,
    }
}

} // verus!
