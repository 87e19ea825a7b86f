//! Write batches and what committing them does.

use vprogs::storage::{MemoryStore, StateSpace, Store, WriteBatch};

#[test]
fn delete_range_is_half_open_and_range_limited() {
    let mut store = MemoryStore::new();
    let mut wb = store.write_batch();
    for k in ["a", "ab", "abc", "b"].map(|k| k.as_bytes()) {
        wb.put(StateSpace::Index, k, b"v");
    }
    store.commit(wb);

    // Delete keys in ["a", "abc"): removes "a" and "ab", keeps "abc" and "b".
    let mut wb = store.write_batch();
    wb.delete_range(StateSpace::Index, b"a", b"abc");
    store.commit(wb);

    assert_eq!(store.get(StateSpace::Index, b"a"), None);
    assert_eq!(store.get(StateSpace::Index, b"ab"), None);
    assert_eq!(store.get(StateSpace::Index, b"abc"), Some(vec![b'v']));
    assert_eq!(store.get(StateSpace::Index, b"b"), Some(vec![b'v']));
}

#[test]
fn delete_range_of_absent_keys_is_harmless() {
    let mut store = MemoryStore::new();
    let mut wb = store.write_batch();
    wb.put(StateSpace::Index, b"keep", b"v");
    wb.delete_range(StateSpace::Index, b"x", b"z");
    store.commit(wb);
    assert_eq!(store.get(StateSpace::Index, b"keep"), Some(vec![b'v']));
}

#[test]
fn delete_range_stays_in_its_namespace() {
    let mut store = MemoryStore::new();
    let mut wb = store.write_batch();
    wb.put(StateSpace::Index, b"k", b"1");
    wb.put(StateSpace::Metadata, b"k", b"2");
    wb.delete_range(StateSpace::Index, b"a", b"z");
    store.commit(wb);
    assert_eq!(store.get(StateSpace::Index, b"k"), None);
    assert_eq!(store.get(StateSpace::Metadata, b"k"), Some(b"2".to_vec()));
}

#[test]
fn later_operations_prevail() {
    let mut store = MemoryStore::new();
    let mut wb = store.write_batch();
    wb.put(StateSpace::Index, b"k", b"1");
    wb.put(StateSpace::Index, b"k", b"2");
    wb.put(StateSpace::Index, b"gone", b"x");
    wb.delete(StateSpace::Index, b"gone");
    store.commit(wb);
    assert_eq!(store.get(StateSpace::Index, b"k"), Some(b"2".to_vec()));
    assert_eq!(store.get(StateSpace::Index, b"gone"), None);
}

#[test]
fn nothing_is_seen_before_the_commit() {
    let store = MemoryStore::new();
    let mut wb = store.write_batch();
    wb.put(StateSpace::Index, b"k", b"1");
    assert_eq!(store.get(StateSpace::Index, b"k"), None);
}

#[test]
fn prefix_listing() {
    let mut store = MemoryStore::new();
    let mut wb = store.write_batch();
    wb.put(StateSpace::Metadata, b"pre1", b"1");
    wb.put(StateSpace::Metadata, b"pre2", b"2");
    wb.put(StateSpace::Metadata, b"pr", b"3");
    wb.put(StateSpace::Index, b"pre3", b"4");
    store.commit(wb);
    let mut found = store.prefix_iter(StateSpace::Metadata, b"pre");
    found.sort();
    assert_eq!(
        found,
        vec![(b"pre1".to_vec(), b"1".to_vec()), (b"pre2".to_vec(), b"2".to_vec())]
    );
}
