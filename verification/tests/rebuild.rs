//! State roots of records.

use vprogs::hashing::{Hasher, Sha256};
use vprogs::smt::node::{Node, EMPTY_HASH};
use vprogs::snapshot::container::{read_container, write_container, Record};
use vprogs::snapshot::rebuild::{
    commit_to_empty_tree, commitments_from_records, compute_root_from_records,
    has_distinct_commitments, has_distinct_resources, root_of_records, Commitment,
};
use vprogs::smt::key::Key;
use vprogs::storage::{MemoryStore, Store, Tree};

fn rec(b: u8, v: &[u8]) -> Record {
    Record { resource_id: [b; 32], value: v.to_vec() }
}

/// The root rebuilt from records equals the root of an independent commit of the same leaves.
#[test]
fn reconstructed_root_matches_independent_commit() {
    let records = vec![rec(1, b"alpha"), rec(2, b""), rec(5, b"gamma"), rec(7, b"delta")];

    // Independent reference: commit the same non-empty leaves directly at some version, with the
    // leaf hash taken from the store's own tree.
    let mut ref_store = MemoryStore::new();
    let commitments = commitments_from_records::<<MemoryStore as Tree>::Hasher>(&records);
    let mut wb = ref_store.write_batch();
    let reference_root =
        commit_to_empty_tree::<_, <MemoryStore as Tree>::Hasher>(&mut wb, commitments, 4242);
    ref_store.commit(wb);

    // Round-trip through the container, then rebuild in a fresh store at version 1.
    let mut buf = Vec::new();
    write_container(&mut buf, b"hdr", records.len() as u64, records.clone()).unwrap();
    let (_hdr, got) = read_container(&mut buf.as_slice()).unwrap();

    let mut recon_store = MemoryStore::new();
    let reconstructed = compute_root_from_records(&mut recon_store, &got);

    assert_eq!(reconstructed, reference_root);
    assert_ne!(reconstructed, [0u8; 32]); // non-empty state has a non-empty root
}

#[test]
fn commitments_skip_empty_values() {
    let commitments =
        commitments_from_records::<Sha256>(&[rec(1, b"abc"), rec(2, b""), rec(3, b"")]);
    assert_eq!(commitments.len(), 1);
    assert_eq!(commitments[0].resource_id, [1; 32]);
    assert_eq!(commitments[0].value_hash, Sha256::hash(b"abc"));
}

#[test]
fn no_records_have_the_empty_root() {
    let mut store = MemoryStore::new();
    assert_eq!(compute_root_from_records(&mut store, &[]), EMPTY_HASH);
    let mut store = MemoryStore::new();
    assert_eq!(compute_root_from_records(&mut store, &[rec(4, b"")]), EMPTY_HASH);
}

#[test]
fn one_record_is_its_leaf() {
    let mut store = MemoryStore::new();
    let root = compute_root_from_records(&mut store, &[rec(4, b"v")]);
    assert_eq!(root, Node::leaf::<Sha256>([4; 32], Sha256::hash(b"v")).hash());
}

#[test]
fn root_does_not_depend_on_order_or_empty_records() {
    let forward = [rec(1, b"a"), rec(2, b"b"), rec(200, b"c"), rec(201, b"d")];
    let backward =
        [rec(201, b"d"), rec(9, b""), rec(200, b"c"), rec(2, b"b"), rec(77, b""), rec(1, b"a")];
    let a = compute_root_from_records(&mut MemoryStore::new(), &forward);
    let b = compute_root_from_records(&mut MemoryStore::new(), &backward);
    assert_eq!(a, b);
    let changed = [rec(1, b"a"), rec(2, b"b"), rec(200, b"c"), rec(201, b"e")];
    assert_ne!(compute_root_from_records(&mut MemoryStore::new(), &changed), a);
}

#[test]
fn sha256_is_the_standard_one() {
    assert_eq!(
        Sha256::hash(b"abc"),
        [
            0xba, 0x78, 0x16, 0xbf, 0x8f, 0x01, 0xcf, 0xea, 0x41, 0x41, 0x40, 0xde, 0x5d, 0xae,
            0x22, 0x23, 0xb0, 0x03, 0x61, 0xa3, 0x96, 0x17, 0x7a, 0x9c, 0xb4, 0x10, 0xff, 0x61,
            0xf2, 0x00, 0x15, 0xad
        ]
    );
}

#[test]
fn repeated_resources_are_told_apart() {
    assert!(has_distinct_resources(&[]));
    assert!(has_distinct_resources(&[rec(3, b"a"), rec(1, b"a"), rec(2, b"")]));
    assert!(!has_distinct_resources(&[rec(3, b"a"), rec(1, b"b"), rec(3, b"c")]));
    // A record without a value does not count.
    assert!(has_distinct_resources(&[rec(3, b"a"), rec(1, b"b"), rec(3, b"")]));
    let c = |b: u8, v: u8| Commitment::new([b; 32], [v; 32]);
    assert!(has_distinct_commitments(&vec![c(9, 1), c(2, 1)]));
    assert!(!has_distinct_commitments(&vec![c(9, 1), c(2, 1), c(9, 2)]));
}

#[test]
fn computed_root_is_committed() {
    let mut store = MemoryStore::new();
    let root = compute_root_from_records(&mut store, &[rec(1, b"a"), rec(2, b"b")]);
    assert_eq!(store.get_node(&Key::root(), 1).unwrap().hash(), root);
    assert_ne!(root, EMPTY_HASH);
}

#[test]
fn a_live_record_beside_an_empty_one_of_its_resource() {
    let plain = compute_root_from_records(&mut MemoryStore::new(), &[rec(1, b"a"), rec(2, b"b")]);
    let both = [rec(1, b""), rec(2, b"b"), rec(1, b"a"), rec(2, b"")];
    assert_eq!(compute_root_from_records(&mut MemoryStore::new(), &both), plain);
    assert_eq!(root_of_records::<Sha256>(&both), plain);
}
