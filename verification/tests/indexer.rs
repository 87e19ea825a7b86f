//! Secondary indexes over the resources.

use std::sync::Arc;

use vprogs::indexer::{Indexer, NoIndex, ResourceIndexer};
use vprogs::smt::node::ResourceId;
use vprogs::storage::{MemoryStore, StateSpace, Store, WriteBatch};

/// Keeps two indexes:
/// - index A, an entry for each event: `0xaa || version || resource`;
/// - index B, an entry for the present state: `0xbb || resource`, with the version as value.
struct ToyIndexer;

fn key_a(id: &ResourceId, version: u64) -> Vec<u8> {
    let mut key = vec![0xaa];
    key.extend_from_slice(&version.to_be_bytes());
    key.extend_from_slice(id);
    key
}

fn key_b(id: &ResourceId) -> Vec<u8> {
    let mut key = vec![0xbb];
    key.extend_from_slice(id);
    key
}

impl ResourceIndexer for ToyIndexer {
    fn index_events<W: WriteBatch>(
        &self,
        id: &ResourceId,
        _old: Option<&[u8]>,
        new: Option<&[u8]>,
        version: u64,
        wb: &mut W,
    ) {
        if new.is_some() {
            wb.put(StateSpace::Index, &key_a(id, version), b"");
        }
    }

    fn index_state<W: WriteBatch>(
        &self,
        id: &ResourceId,
        _old: Option<&[u8]>,
        new: Option<&[u8]>,
        version: u64,
        wb: &mut W,
    ) {
        if new.is_some() {
            wb.put(StateSpace::Index, &key_b(id), &version.to_be_bytes());
        } else {
            wb.delete(StateSpace::Index, &key_b(id));
        }
    }

    fn revert_state<W: WriteBatch>(
        &self,
        id: &ResourceId,
        restored: Option<&[u8]>,
        version: u64,
        wb: &mut W,
    ) {
        if restored.is_some() {
            wb.put(StateSpace::Index, &key_b(id), &version.to_be_bytes());
        } else {
            wb.delete(StateSpace::Index, &key_b(id));
        }
    }
}

#[test]
fn indexer_double_apply_is_idempotent() {
    let mut storage = MemoryStore::new();
    let indexer = ToyIndexer;

    let rid: ResourceId = [3; 32];
    let mut wb = storage.write_batch();
    for _ in 0..2 {
        indexer.index_events(&rid, None, Some(b"data"), 1, &mut wb);
        indexer.index_state(&rid, None, Some(b"data"), 1, &mut wb);
    }
    storage.commit(wb);

    let a_entries = storage.prefix_iter(StateSpace::Index, &[0xaa]);
    assert_eq!(a_entries.len(), 1);
    let b_entries = storage.prefix_iter(StateSpace::Index, &[0xbb]);
    assert_eq!(b_entries.len(), 1);
}

#[test]
fn revert_restores_the_entry() {
    let mut storage = MemoryStore::new();
    let handle = Indexer(Arc::new(ToyIndexer));
    let rid: ResourceId = [4; 32];
    let mut wb = storage.write_batch();
    handle.0.index_state(&rid, None, Some(b"new"), 2, &mut wb);
    handle.clone().0.revert_state(&rid, Some(b"old"), 1, &mut wb);
    storage.commit(wb);
    assert_eq!(
        storage.get(StateSpace::Index, &key_b(&rid)),
        Some(1u64.to_be_bytes().to_vec())
    );
}

#[test]
fn hooks_do_nothing_by_default() {
    let mut storage = MemoryStore::new();
    let mut wb = storage.write_batch();
    NoIndex.index_events(&[1; 32], None, Some(b"x"), 1, &mut wb);
    NoIndex.index_state(&[1; 32], Some(b"x"), None, 1, &mut wb);
    NoIndex.revert_state(&[1; 32], None, 1, &mut wb);
    assert!(wb.recorded.is_empty());
    storage.commit(wb);
    assert!(storage.prefix_iter(StateSpace::Index, b"").is_empty());
}

#[test]
fn handle_hides_the_indexer() {
    assert_eq!(Indexer(Arc::new(NoIndex)).label(), "Indexer(..)");
}
