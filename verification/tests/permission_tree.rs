//! The permission tree over exits.

use vprogs::hashing::{Hasher, Sha256};
use vprogs::permission_tree::{ExitLeaf, PermissionTreeAccumulator, StandardSpk};
use vprogs::permission_tree_view::{fold_path, PermissionTreeView};

#[test]
fn root_matches_manual_padded_root() {
    let pk0 = [0x11u8; 32];
    let pk1 = [0x22u8; 32];
    let l0 = ExitLeaf::from_pair(StandardSpk::PubKey(&pk0), 100);
    let l1 = ExitLeaf::from_pair(StandardSpk::PubKey(&pk1), 200);

    let h0 = PermissionTreeAccumulator::hash_leaf(l0.to_standard_spk(), l0.amount);
    let h1 = PermissionTreeAccumulator::hash_leaf(l1.to_standard_spk(), l1.amount);
    let manual_root = PermissionTreeAccumulator::hash_branch(&h0, &h1);

    let tree = PermissionTreeView::from_leaves(&[l0.clone(), l1.clone()]);
    assert_eq!(tree.depth(), PermissionTreeAccumulator::required_depth(2));
    assert_eq!(tree.root(), manual_root);

    // 3 leaves: depth 2, padded with hash_empty().
    let pk2 = [0x33u8; 32];
    let l2 = ExitLeaf::from_pair(StandardSpk::PubKey(&pk2), 300);
    let h2 = PermissionTreeAccumulator::hash_leaf(l2.to_standard_spk(), l2.amount);
    let tree3 = PermissionTreeView::from_leaves(&[l0, l1, l2]);
    let empty = PermissionTreeAccumulator::hash_empty();
    let b0 = PermissionTreeAccumulator::hash_branch(&h0, &h1);
    let b1 = PermissionTreeAccumulator::hash_branch(&h2, &empty);
    let manual3_root = PermissionTreeAccumulator::hash_branch(&b0, &b1);
    assert_eq!(tree3.depth(), PermissionTreeAccumulator::required_depth(3));
    assert_eq!(tree3.root(), manual3_root);
}

#[test]
fn siblings_differ_at_every_level() {
    let pk0 = [0x11u8; 32];
    let pk1 = [0x22u8; 32];
    let l0 = ExitLeaf::from_pair(StandardSpk::PubKey(&pk0), 100);
    let l1 = ExitLeaf::from_pair(StandardSpk::PubKey(&pk1), 200);
    let tree = PermissionTreeView::from_leaves(&[l0, l1]);

    let s0 = tree.siblings(0);
    let s1 = tree.siblings(1);
    assert!(!s0.is_empty());
    assert_eq!(s0.len(), s1.len());
    for (sib0, sib1) in s0.iter().zip(s1.iter()) {
        assert_ne!(sib0, sib1);
    }
}

#[test]
fn fold_path_reproduces_root_and_root_with_leaf() {
    let pk0 = [0x11u8; 32];
    let pk1 = [0x22u8; 32];
    let l0 = ExitLeaf::from_pair(StandardSpk::PubKey(&pk0), 100);
    let l1 = ExitLeaf::from_pair(StandardSpk::PubKey(&pk1), 200);

    let l0_hash = PermissionTreeAccumulator::hash_leaf(l0.to_standard_spk(), l0.amount);
    let tree = PermissionTreeView::from_leaves(&[l0, l1]);
    let s0 = tree.siblings(0);
    assert_eq!(fold_path(l0_hash, &s0, 0), tree.root());

    let new_leaf = [0x55u8; 32];
    assert_eq!(fold_path(new_leaf, &s0, 0), tree.root_with_leaf(0, new_leaf));
}

#[test]
fn single_leaf_depth_zero_tree() {
    let leaf_hash = [0x42u8; 32];
    let tree = PermissionTreeView { levels: vec![vec![leaf_hash]] };

    assert_eq!(tree.depth(), 0);
    assert_eq!(tree.root(), leaf_hash);
    assert!(tree.siblings(0).is_empty());
    assert_eq!(fold_path(leaf_hash, &tree.siblings(0), 0), leaf_hash);
    assert_eq!(tree.root_with_leaf(0, leaf_hash), leaf_hash);
}

fn exits(n: u8) -> Vec<ExitLeaf> {
    (0..n).map(|i| ExitLeaf::from_pair(StandardSpk::PubKey(&[i; 32]), 10 + i as u64)).collect()
}

#[test]
fn required_depth_is_the_least_with_room() {
    let depths: Vec<usize> = [0, 1, 2, 3, 4, 5, 8, 9, 1024, 1025]
        .iter()
        .map(|n| PermissionTreeAccumulator::required_depth(*n))
        .collect();
    assert_eq!(depths, vec![0, 0, 1, 2, 2, 3, 3, 4, 10, 11]);
}

#[test]
fn every_leaf_folds_to_the_root() {
    let tree = PermissionTreeView::from_leaves(&exits(5));
    assert_eq!(tree.depth(), 3);
    assert_eq!(tree.levels[0].len(), 8);
    for i in 0..8 {
        let leaf = tree.levels[0][i];
        assert_eq!(fold_path(leaf, &tree.siblings(i), i), tree.root());
    }
}

#[test]
fn root_with_leaf_is_the_root_of_the_changed_tree() {
    let mut changed = exits(6);
    let tree = PermissionTreeView::from_leaves(&changed);
    changed[3].amount = 7777;
    let leaf =
        PermissionTreeAccumulator::hash_leaf(changed[3].to_standard_spk(), changed[3].amount);
    assert_eq!(
        tree.root_with_leaf(3, leaf),
        PermissionTreeView::from_leaves(&changed).root()
    );
    assert_ne!(tree.root_with_leaf(3, leaf), tree.root());
}

#[test]
fn no_exits_leave_one_empty_place() {
    let tree = PermissionTreeView::from_leaves(&[]);
    assert_eq!(tree.depth(), 0);
    assert_eq!(tree.root(), PermissionTreeAccumulator::hash_empty());
}

#[test]
fn fold_path_takes_sides_by_the_bits_of_the_index() {
    let (leaf, a, b) = ([1u8; 32], [2u8; 32], [3u8; 32]);
    let low = PermissionTreeAccumulator::hash_branch(&leaf, &a);
    assert_eq!(fold_path(leaf, &[a, b], 2), PermissionTreeAccumulator::hash_branch(&b, &low));
    let low = PermissionTreeAccumulator::hash_branch(&a, &leaf);
    assert_eq!(fold_path(leaf, &[a, b], 1), PermissionTreeAccumulator::hash_branch(&low, &b));
}

#[test]
fn node_hashes_are_exact() {
    let mut data = vec![0u8];
    data.extend_from_slice(&[9; 32]);
    data.extend_from_slice(&[0x2a, 0, 0, 0, 0, 0, 0, 0]);
    let exit = ExitLeaf::from_pair(StandardSpk::PubKey(&[9; 32]), 42);
    assert_eq!(
        PermissionTreeAccumulator::hash_leaf(exit.to_standard_spk(), exit.amount),
        Sha256::hash(&data)
    );
    assert_eq!(PermissionTreeAccumulator::hash_empty(), Sha256::hash(&[2]));
}
