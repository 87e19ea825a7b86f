//! Bulk loading of the tree.

use vprogs::hashing::Sha256;
use vprogs::smt::builder::{build_sorted, Leaf};
use vprogs::smt::key::{get_bit, under, Key};
use vprogs::smt::node::{HashedNode, Node, EMPTY_HASH};
use vprogs::smt::sort::sort_leaves;
use vprogs::storage::{MemoryStore, OpBatch, RecordedOp, StateSpace, Store, WriteBatch};

fn leaf(first: u8, last: u8) -> Leaf {
    let mut id = [0u8; 32];
    id[0] = first;
    id[31] = last;
    (id, [last; 32])
}

fn load(leaves: Vec<Leaf>, version: u64) -> ([u8; 32], OpBatch) {
    let mut wb = OpBatch::new();
    let root = build_sorted::<OpBatch, Sha256, _>(&mut wb, version, leaves.into_iter());
    (root, wb)
}

fn writes(wb: &OpBatch) -> Vec<(u16, [u8; 32], u64, [u8; 32])> {
    wb.recorded
        .iter()
        .map(|op| match op {
            RecordedOp::PutNode { position, version, node } => {
                (position.level, position.path, *version, node.hash())
            }
            _ => panic!("only nodes are written"),
        })
        .collect()
}

#[test]
fn empty_set_writes_a_tombstone() {
    let (root, wb) = load(vec![], 3);
    assert_eq!(root, EMPTY_HASH);
    assert_eq!(wb.recorded.len(), 1);
    assert!(matches!(
        wb.recorded[0],
        RecordedOp::PutNode { position: Key { level: 0, .. }, version: 3, node: Node::Empty }
    ));
}

#[test]
fn one_leaf_rests_at_the_root() {
    let l = leaf(0x40, 9);
    let (root, wb) = load(vec![l], 1);
    assert_eq!(root, Node::leaf::<Sha256>(l.0, l.1).hash());
    assert_eq!(writes(&wb), vec![(0, [0; 32], 1, root)]);
}

#[test]
fn two_leaves_split_at_the_first_bit() {
    let (a, b) = (leaf(0x00, 1), leaf(0x80, 2));
    let (root, wb) = load(vec![a, b], 5);
    let la = Node::leaf::<Sha256>(a.0, a.1);
    let lb = Node::leaf::<Sha256>(b.0, b.1);
    assert_eq!(root, Node::internal::<Sha256>(&la.summary(), &lb.summary()).hash());
    let mut right = [0u8; 32];
    right[0] = 0x80;
    assert_eq!(
        writes(&wb),
        vec![(1, [0; 32], 5, la.hash()), (1, right, 5, lb.hash()), (0, [0; 32], 5, root)]
    );
}

#[test]
fn leaves_that_share_bits_split_below_them() {
    // 0x40 and 0x60 share the first bit and the second, and differ in the third.
    let (a, b) = (leaf(0x40, 1), leaf(0x60, 2));
    let (root, wb) = load(vec![a, b], 2);
    let la = Node::leaf::<Sha256>(a.0, a.1);
    let lb = Node::leaf::<Sha256>(b.0, b.1);
    let third = Node::internal::<Sha256>(&la.summary(), &lb.summary());
    let second = Node::internal::<Sha256>(&HashedNode::empty(), &third.summary());
    let first = Node::internal::<Sha256>(&second.summary(), &HashedNode::empty());
    assert_eq!(root, first.hash());
    assert_eq!(wb.recorded.len(), 5);
}

#[test]
fn leaves_that_differ_in_the_last_bit_go_all_the_way_down() {
    let (root, wb) = load(vec![leaf(7, 2), leaf(7, 3)], 1);
    assert_ne!(root, EMPTY_HASH);
    // One node on each level but the last, and two leaves.
    assert_eq!(wb.recorded.len(), 256 + 2);
    assert_eq!(writes(&wb)[0].0, 256);
}

#[test]
fn root_does_not_depend_on_the_version() {
    let leaves = vec![leaf(1, 1), leaf(1, 2), leaf(90, 3), leaf(200, 4), leaf(255, 5)];
    let (a, wa) = load(leaves.clone(), 1);
    let (b, wb) = load(leaves, 77);
    assert_eq!(a, b);
    assert!(writes(&wa).iter().all(|w| w.2 == 1));
    assert!(writes(&wb).iter().all(|w| w.2 == 77));
    let positions: std::collections::HashSet<_> =
        writes(&wa).iter().map(|w| (w.0, w.1)).collect();
    assert_eq!(positions.len(), wa.recorded.len());
}

#[test]
fn committed_nodes_are_found() {
    let leaves = vec![leaf(1, 1), leaf(2, 2), leaf(255, 5)];
    let mut store = MemoryStore::new();
    let mut wb = store.write_batch();
    let root = build_sorted::<OpBatch, Sha256, _>(&mut wb, 8, leaves.into_iter());
    store.commit(wb);
    let top = store.get_node(&Key::root(), 8).unwrap();
    assert_eq!(top.hash(), root);
    match top {
        Node::Internal { left, right, .. } => {
            let l = store.get_node(&Key::root().left_child(), 8).unwrap();
            let r = store.get_node(&Key::root().right_child(), 8).unwrap();
            assert_eq!(l.hash(), left.hash);
            assert_eq!(r.hash(), right.hash);
            assert!(matches!(l, Node::Internal { .. }));
            assert!(matches!(r, Node::Leaf { value_hash, .. } if value_hash == [5; 32]));
        }
        _ => panic!("a tree of several leaves has a node over two children"),
    }
    assert!(store.get_node(&Key::root(), 7).is_none());
}

#[test]
fn sorting_orders_by_resource() {
    let given = vec![leaf(9, 1), leaf(3, 2), leaf(200, 0), leaf(3, 1)];
    let sorted = sort_leaves(&given);
    assert_eq!(sorted, vec![leaf(3, 1), leaf(3, 2), leaf(9, 1), leaf(200, 0)]);
    assert!(sort_leaves(&vec![]).is_empty());
}

#[test]
fn bits_count_from_the_most_significant() {
    let mut path = [0u8; 32];
    path[0] = 0b0100_0000;
    path[31] = 1;
    assert!(!get_bit(&path, 0));
    assert!(get_bit(&path, 1));
    assert!(get_bit(&path, 255));
    assert!(!get_bit(&path, 254));
    let key = Key::root().left_child().right_child();
    assert!(under(&key, &path));
    assert!(!under(&key.right_child(), &path));
    assert!(under(&Key::root(), &[0xff; 32]));
}

/// A batch that only counts.
struct CountingBatch(usize);

impl WriteBatch for CountingBatch {
    fn put(&mut self, _ns: StateSpace, _key: &[u8], _value: &[u8]) {
        self.0 += 1;
    }

    fn delete(&mut self, _ns: StateSpace, _key: &[u8]) {
        self.0 += 1;
    }

    fn delete_range(&mut self, _ns: StateSpace, _start: &[u8], _end: &[u8]) {
        self.0 += 1;
    }

    fn put_node(&mut self, _key: &Key, _version: u64, _node: &Node) {
        self.0 += 1;
    }
}

#[test]
fn any_batch_can_be_loaded_into() {
    let leaves = vec![leaf(0x00, 1), leaf(0x80, 2)];
    let mut wb = CountingBatch(0);
    let root = build_sorted::<CountingBatch, Sha256, _>(&mut wb, 1, leaves.clone().into_iter());
    assert_eq!(wb.0, 3);
    assert_eq!(root, load(leaves, 1).0);
}
