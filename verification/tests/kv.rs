use ddb::encoding::KVOperation;
use ddb::error::Error;
use ddb::kv::Store;

#[test]
fn replay_rebuilds_cache() {
    let entries = vec![
        KVOperation::set(b"k", b"v").encode(),
        KVOperation::delete(b"k").encode(),
        KVOperation::set(b"k", b"w").encode(),
    ];
    let store = Store::replay(&entries).unwrap();
    assert_eq!(store.get(b"k"), Some(b"w".to_vec()));
    assert_eq!(store.list(), vec![(b"k".to_vec(), b"w".to_vec())]);
}

#[test]
fn replay_skips_get_frames() {
    let entries = vec![
        KVOperation::get().encode(),
        KVOperation::set(b"a", b"1").encode(),
    ];
    let store = Store::replay(&entries).unwrap();
    assert_eq!(store.get(b"a"), Some(b"1".to_vec()));
    assert_eq!(store.list().len(), 1);
}

#[test]
fn replay_rejects_undecodable_payload() {
    let entries = vec![KVOperation::set(b"a", b"1").encode(), vec![0x09]];
    assert!(matches!(Store::replay(&entries), Err(Error::Parse(_))));
}

#[test]
fn replay_is_deterministic() {
    let entries = vec![
        KVOperation::set(b"a", b"1").encode(),
        KVOperation::set(b"b", b"2").encode(),
        KVOperation::delete(b"a").encode(),
    ];
    let one = Store::replay(&entries).unwrap();
    let two = Store::replay(&entries).unwrap();
    assert_eq!(one.list(), two.list());
    assert_eq!(one.get(b"a"), None);
    assert_eq!(two.get(b"b"), Some(b"2".to_vec()));
}

#[test]
fn set_returns_previous_value() {
    let mut store = Store::new();
    assert_eq!(store.set(b"k", b"v"), None);
    assert_eq!(store.set(b"k", b"w"), Some(b"v".to_vec()));
    assert_eq!(store.get(b"k"), Some(b"w".to_vec()));
    assert_eq!(store.list().len(), 1);
}

#[test]
fn delete_returns_previous_value() {
    let mut store = Store::new();
    store.set(b"k", b"v");
    assert_eq!(store.delete(b"k"), Some(b"v".to_vec()));
    assert_eq!(store.get(b"k"), None);
}

#[test]
fn delete_absent_short_circuits() {
    let mut store = Store::new();
    assert_eq!(store.delete(b"x"), None);
    assert!(store.list().is_empty());
}

#[test]
fn list_keeps_first_insertion_order() {
    let mut store = Store::new();
    store.set(b"b", b"2");
    store.set(b"a", b"1");
    store.set(b"b", b"3");
    assert_eq!(
        store.list(),
        vec![(b"b".to_vec(), b"3".to_vec()), (b"a".to_vec(), b"1".to_vec())]
    );
}
