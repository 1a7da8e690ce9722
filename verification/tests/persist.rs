use lib_oxide_db::persist::store_index_bytes;
use lib_oxide_db::record::encode;
use lib_oxide_db::{store_index_on_disk, OxideDB};
use std::collections::HashMap;

const INDEX_KEY: &[u8] = b"+index";

fn decoded(bytes: &[u8]) -> HashMap<Vec<u8>, u64> {
    match bincode::deserialize(bytes) {
        Ok(map) => map,
        Err(e) => panic!("{}", e),
    }
}

#[test]
fn store_index_bytes_writes_one_record_and_resets_the_index() {
    let mut db = OxideDB::open(Vec::new());
    db.insert(b"a", b"1");
    db.insert(b"b", b"2");
    store_index_bytes(&mut db, INDEX_KEY, b"snapshot");
    let mut expected = encode(b"a", b"1");
    expected.extend_from_slice(&encode(b"b", b"2"));
    expected.extend_from_slice(&encode(INDEX_KEY, b"snapshot"));
    assert_eq!(db.log().as_bytes(), &expected[..]);
    assert_eq!(db.index().get(INDEX_KEY), Some(28));
    assert_eq!(db.index().get(b"a"), None);
    assert_eq!(db.index().get(b"b"), None);
    assert_eq!(db.get(INDEX_KEY), Ok(Some(b"snapshot".to_vec())));
    assert_eq!(db.get(b"a"), Ok(None));
}

#[test]
fn stored_index_holds_the_pairs_of_the_index() {
    let mut db = OxideDB::open(Vec::new());
    db.insert(b"a", b"1");
    db.insert(b"b", b"2");
    db.insert(b"a", b"3");
    assert!(store_index_on_disk(&mut db, INDEX_KEY));
    assert_eq!(db.index().get(INDEX_KEY), Some(42));
    assert_eq!(db.index().get(b"a"), None);
    assert_eq!(db.index().get(b"b"), None);
    let snapshot = match db.get(INDEX_KEY) {
        Ok(Some(bytes)) => bytes,
        other => panic!("{:?}", other),
    };
    let map = decoded(&snapshot);
    let mut expected = HashMap::new();
    expected.insert(b"a".to_vec(), 28);
    expected.insert(b"b".to_vec(), 14);
    assert_eq!(map, expected);
    for (key, offset) in map {
        let kv = db.get_at(offset);
        assert_eq!(kv.map(|kv| kv.key), Ok(key));
    }
}

#[test]
fn stored_index_leaves_out_the_key_it_is_stored_under() {
    let mut db = OxideDB::open(Vec::new());
    db.insert(b"a", b"1");
    assert!(store_index_on_disk(&mut db, INDEX_KEY));
    db.insert(b"b", b"2");
    assert!(store_index_on_disk(&mut db, INDEX_KEY));
    let snapshot = match db.get(INDEX_KEY) {
        Ok(Some(bytes)) => bytes,
        other => panic!("{:?}", other),
    };
    let map = decoded(&snapshot);
    let mut expected = HashMap::new();
    expected.insert(b"b".to_vec(), 57);
    assert_eq!(map, expected);
}

#[test]
fn stored_index_of_an_empty_index() {
    let mut db = OxideDB::open(Vec::new());
    assert!(store_index_on_disk(&mut db, INDEX_KEY));
    assert_eq!(db.get(INDEX_KEY), Ok(Some(vec![0, 0, 0, 0, 0, 0, 0, 0])));
    assert_eq!(db.index().get(INDEX_KEY), Some(0));
}

#[test]
fn stored_index_of_one_pair_has_the_layout_of_a_map() {
    let mut db = OxideDB::open(Vec::new());
    db.insert(b"ab", b"1");
    assert!(store_index_on_disk(&mut db, INDEX_KEY));
    let mut expected = vec![1, 0, 0, 0, 0, 0, 0, 0];
    expected.extend_from_slice(&[2, 0, 0, 0, 0, 0, 0, 0, b'a', b'b']);
    expected.extend_from_slice(&[0, 0, 0, 0, 0, 0, 0, 0]);
    assert_eq!(db.get(INDEX_KEY), Ok(Some(expected)));
}
