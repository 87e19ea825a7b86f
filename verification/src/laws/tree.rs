//! The tree over the leaves: which nodes are written where, and what its root binds.

use vstd::arithmetic::power2::{lemma2_to64, pow2};
use vstd::prelude::*;

use crate::bytes::{lemma_array_view_eq, lemma_lex_irreflexive, lex_less};
use crate::hashing::{Hasher, Sha256};
use crate::laws::encoding::{lemma_order_is_by_first_difference, stands_before};
use crate::smt::builder::{
    ascending, child_summary, child_write, lemma_tree_writes, lemma_writes_below, ones, root_node,
    subtree, tree_writes, writes_below, zeros, Leaf,
};
use crate::smt::key::{
    lemma_bits_determine_path, lemma_children_clear, lemma_children_cover,
    lemma_right_child_bits, lemma_root_clear, path_bit, Key,
};
use crate::smt::node::{HashedNode, Node, NodeHasher, EMPTY_HASH};
use crate::smt::sort::distinct_resources;
use crate::storage::BatchOp;

verus! {

/// Bit `i` of `path`: byte `i / 8`, its digit to base 2 at place `7 - i % 8`.
pub open spec fn bit(path: [u8; 32], i: int) -> bool {
    path@[i / 8] as int / pow2((7 - i % 8) as nat) as int % 2 == 1
}

/// The bits that the tree branches on are the binary digits of the path's bytes, the most
/// significant first.
pub proof fn lemma_bit_is_digit(path: [u8; 32], i: int)
    requires
        0 <= i < 256,
    ensures
        path_bit(path, i) == bit(path, i),
{
    let b = path@[i / 8];
    lemma2_to64();
    assert((b & 0x80 != 0) == (b / 128 % 2 == 1) && (b & 0x40 != 0) == (b / 64 % 2 == 1) && (b
        & 0x20 != 0) == (b / 32 % 2 == 1) && (b & 0x10 != 0) == (b / 16 % 2 == 1) && (b & 0x08 != 0)
        == (b / 8 % 2 == 1) && (b & 0x04 != 0) == (b / 4 % 2 == 1) && (b & 0x02 != 0) == (b / 2 % 2
        == 1) && (b & 0x01 != 0) == (b % 2 == 1)) by (bit_vector);
    let k = i % 8;
    if k == 0 {
        assert(pow2(7) == 128);
    } else if k == 1 {
        assert(pow2(6) == 64);
    } else if k == 2 {
        assert(pow2(5) == 32);
    } else if k == 3 {
        assert(pow2(4) == 16);
    } else if k == 4 {
        assert(pow2(3) == 8);
    } else if k == 5 {
        assert(pow2(2) == 4);
    } else if k == 6 {
        assert(pow2(1) == 2);
    } else {
        assert(pow2(0) == 1);
        assert(b as int / 1 == b);
    }
}

/// `path` has the first `n` bits of `other`.
pub open spec fn begins_as(path: [u8; 32], other: [u8; 32], n: int) -> bool {
    forall|i: int| 0 <= i < n ==> #[trigger] bit(path, i) == bit(other, i)
}

/// No resource has two leaves.
pub open spec fn no_resource_twice(leaves: Seq<Leaf>) -> bool {
    forall|i: int, j: int|
        #![trigger leaves[i], leaves[j]]
        0 <= i < j < leaves.len() ==> leaves[i].0 != leaves[j].0
}

/// A path lies under a position where it begins with the position's bits.
pub proof fn lemma_covers_by_bit(key: Key, path: [u8; 32])
    requires
        key.level <= 256,
    ensures
        key.covers(path) == begins_as(path, key.path, key.level as int),
{
    if key.covers(path) {
        assert forall|i: int| 0 <= i < key.level implies #[trigger] bit(path, i) == bit(
            key.path,
            i,
        ) by {
            assert(path_bit(path, i) == path_bit(key.path, i));
            lemma_bit_is_digit(path, i);
            lemma_bit_is_digit(key.path, i);
        }
    }
    if begins_as(path, key.path, key.level as int) {
        assert forall|i: int| 0 <= i < key.level implies path_bit(path, i) == path_bit(
            key.path,
            i,
        ) by {
            lemma_bit_is_digit(path, i);
            lemma_bit_is_digit(key.path, i);
        }
    }
}

/// The positions by their bits: the root has none; a child has its parent's, and one more, which
/// is zero on the left and one on the right.
pub proof fn lemma_positions_by_bit(key: Key, i: int)
    requires
        key.level < 256,
        0 <= i < 256,
    ensures
        Key::root_spec().level == 0,
        is_zero(Key::root_spec().path),
        key.left_child_spec().level == key.level + 1,
        key.left_child_spec().path == key.path,
        key.right_child_spec().level == key.level + 1,
        bit(key.right_child_spec().path, i) == (i == key.level || bit(key.path, i)),
{
    lemma_root_is_written_last::<Sha256>(Seq::empty(), 1);
    lemma_right_child_bits(key, i);
    lemma_bit_is_digit(key.path, i);
    lemma_bit_is_digit(key.right_child_spec().path, i);
}

/// The nodes by their fields, and what a parent keeps of them.
pub proof fn lemma_nodes_by_field<H: NodeHasher>(
    id: [u8; 32],
    value_hash: [u8; 32],
    left: HashedNode,
    right: HashedNode,
    node: Node,
)
    ensures
        Node::leaf_spec::<H>(id, value_hash) == (Node::Leaf {
            resource_id: id,
            value_hash,
            hash: H::leaf_digest(id, value_hash),
        }),
        Node::internal_spec::<H>(left, right) == (Node::Internal {
            left,
            right,
            hash: H::internal_digest(left, right),
        }),
        Sha256::leaf_digest(id, value_hash) == Sha256::digest(seq![0u8] + id@ + value_hash@),
        Sha256::internal_digest(left, right) == Sha256::digest(
            seq![1u8] + left.hash@ + right.hash@,
        ),
        is_zero(HashedNode::empty_spec().hash) && !HashedNode::empty_spec().is_leaf,
        node.summary_spec().hash == node.hash_spec(),
        match node {
            Node::Empty => is_zero(node.hash_spec()) && !node.summary_spec().is_leaf,
            Node::Leaf { hash, .. } => node.hash_spec() == hash && node.summary_spec().is_leaf,
            Node::Internal { hash, .. } => node.hash_spec() == hash
                && !node.summary_spec().is_leaf,
        },
{
}

/// Leaves are in ascending order where each resource stands before the later ones, and then no
/// resource has two. They are for distinct resources where no resource has two.
pub proof fn lemma_order_by_resource(leaves: Seq<Leaf>)
    ensures
        ascending(leaves) <==> forall|i: int, j: int|
            #![trigger leaves[i], leaves[j]]
            0 <= i < j < leaves.len() ==> stands_before(leaves[i].0@, leaves[j].0@),
        ascending(leaves) ==> no_resource_twice(leaves),
        distinct_resources(leaves) <==> no_resource_twice(leaves),
{
    assert forall|i: int, j: int|
        #![trigger leaves[i], leaves[j]]
        0 <= i < j < leaves.len() implies lex_less(leaves[i].0@, leaves[j].0@) == stands_before(
        leaves[i].0@,
        leaves[j].0@,
    ) by {
        lemma_order_is_by_first_difference(leaves[i].0@, leaves[j].0@);
    }
    if ascending(leaves) {
        assert forall|i: int, j: int|
            #![trigger leaves[i], leaves[j]]
            0 <= i < j < leaves.len() implies leaves[i].0 != leaves[j].0 by {
            lemma_lex_irreflexive(leaves[i].0@);
        }
    }
}

proof fn lemma_filter_members(leaves: Seq<Leaf>, p: spec_fn(Leaf) -> bool)
    ensures
        forall|x: Leaf| #[trigger]
            leaves.filter(p).contains(x) <==> leaves.contains(x) && p(x),
{
    let kept = leaves.filter(p);
    assert forall|x: Leaf| #[trigger] kept.contains(x) <==> leaves.contains(x) && p(x) by {
        if kept.contains(x) {
            let m = choose|m: int| 0 <= m < kept.len() && kept[m] == x;
            leaves.lemma_filter_pred(p, m);
            leaves.lemma_filter_contains_rev(p, x);
        }
        if leaves.contains(x) && p(x) {
            let i = choose|i: int| 0 <= i < leaves.len() && leaves[i] == x;
            leaves.lemma_filter_contains(p, i);
        }
    }
}

proof fn lemma_filter_keeps_distinct(leaves: Seq<Leaf>, p: spec_fn(Leaf) -> bool)
    requires
        no_resource_twice(leaves),
    ensures
        no_resource_twice(leaves.filter(p)),
    decreases leaves.len(),
{
    reveal(Seq::filter);
    if leaves.len() > 0 {
        let head = leaves.drop_last();
        assert forall|i: int, j: int|
            #![trigger head[i], head[j]]
            0 <= i < j < head.len() implies head[i].0 != head[j].0 by {
            assert(leaves[i].0 != leaves[j].0);
        }
        lemma_filter_keeps_distinct(head, p);
        lemma_filter_members(head, p);
        let kept = leaves.filter(p);
        let fewer = head.filter(p);
        assert forall|i: int, j: int|
            #![trigger kept[i], kept[j]]
            0 <= i < j < kept.len() implies kept[i].0 != kept[j].0 by {
            if j < fewer.len() {
                assert(kept[i] == fewer[i] && kept[j] == fewer[j]);
            } else {
                assert(kept[i] == fewer[i] && kept[j] == leaves.last());
                assert(fewer.contains(fewer[i]));
                let m = choose|m: int| 0 <= m < head.len() && head[m] == fewer[i];
                assert(leaves[m].0 != leaves[leaves.len() - 1].0);
            }
        }
    }
}

/// All leaves lie under `key`, which is a position of the tree, and no resource has two of them.
spec fn lies_under(leaves: Seq<Leaf>, key: Key) -> bool {
    &&& key.level <= 256
    &&& key.bit_clear()
    &&& no_resource_twice(leaves)
    &&& forall|x: Leaf| #[trigger] leaves.contains(x) ==> key.covers(x.0)
}

/// The two halves of a list of leaves under a position.
proof fn lemma_halves(leaves: Seq<Leaf>, key: Key)
    requires
        lies_under(leaves, key),
        leaves.len() > 1,
    ensures
        key.level < 256,
        lies_under(zeros(leaves, key.level as int), key.left_child_spec()),
        lies_under(ones(leaves, key.level as int), key.right_child_spec()),
        forall|x: Leaf| #[trigger]
            leaves.contains(x) <==> zeros(leaves, key.level as int).contains(x) || ones(
                leaves,
                key.level as int,
            ).contains(x),
        forall|x: Leaf| #[trigger]
            zeros(leaves, key.level as int).contains(x) <==> leaves.contains(x)
                && key.left_child_spec().covers(x.0),
        forall|x: Leaf| #[trigger]
            ones(leaves, key.level as int).contains(x) <==> leaves.contains(x)
                && key.right_child_spec().covers(x.0),
{
    assert(leaves.contains(leaves[0]) && leaves.contains(leaves[1]));
    if key.level == 256 {
        assert forall|i: int| 0 <= i < 256 implies path_bit(leaves[0].0, i) == path_bit(
            leaves[1].0,
            i,
        ) by {
            assert(path_bit(leaves[0].0, i) == path_bit(key.path, i));
            assert(path_bit(leaves[1].0, i) == path_bit(key.path, i));
        }
        lemma_bits_determine_path(leaves[0].0, leaves[1].0);
    }
    let level = key.level as int;
    let p = |leaf: Leaf| !path_bit(leaf.0, level);
    let q = |leaf: Leaf| path_bit(leaf.0, level);
    lemma_filter_members(leaves, p);
    lemma_filter_members(leaves, q);
    lemma_filter_keeps_distinct(leaves, p);
    lemma_filter_keeps_distinct(leaves, q);
    lemma_children_clear(key);
    assert(zeros(leaves, level) == leaves.filter(p));
    assert(ones(leaves, level) == leaves.filter(q));
    assert forall|x: Leaf| #[trigger] leaves.contains(x) implies key.left_child_spec().covers(x.0)
        == p(x) && key.right_child_spec().covers(x.0) == q(x) by {
        lemma_children_cover(key, x.0);
    }
}

/// What node belongs at a position of the tree over `leaves`: a leaf where a single one lies under
/// the position and some other lies under the position above; a node over two children where at
/// least two do. Its hash is that of what it holds.
pub open spec fn belongs<H: NodeHasher>(leaves: Seq<Leaf>, position: Key, node: Node) -> bool {
    match node {
        Node::Empty => leaves.len() == 0,
        Node::Leaf { resource_id, value_hash, hash } => {
            &&& hash == H::leaf_digest(resource_id, value_hash)
            &&& leaves.contains((resource_id, value_hash))
            &&& begins_as(resource_id, position.path, position.level as int)
            &&& forall|x: Leaf| #[trigger]
                leaves.contains(x) && begins_as(x.0, position.path, position.level as int) ==> x
                    == (resource_id, value_hash)
            &&& position.level > 0 ==> exists|x: Leaf| #[trigger]
                leaves.contains(x) && x.0 != resource_id && begins_as(
                    x.0,
                    position.path,
                    position.level - 1,
                )
        },
        Node::Internal { left, right, hash } => {
            &&& hash == H::internal_digest(left, right)
            &&& exists|x: Leaf, y: Leaf|
                {
                    &&& #[trigger] leaves.contains(x)
                    &&& #[trigger] leaves.contains(y)
                    &&& x.0 != y.0
                    &&& begins_as(x.0, position.path, position.level as int)
                    &&& begins_as(y.0, position.path, position.level as int)
                }
        },
    }
}

/// A node that belongs to a part of the tree belongs to the whole.
proof fn lemma_belongs_to_whole<H: NodeHasher>(
    part: Seq<Leaf>,
    leaves: Seq<Leaf>,
    top: Key,
    position: Key,
    node: Node,
)
    requires
        belongs::<H>(part, position, node),
        node !is Empty,
        top.level <= position.level <= 256,
        top.covers(position.path),
        forall|x: Leaf| #[trigger] part.contains(x) <==> leaves.contains(x) && top.covers(x.0),
    ensures
        belongs::<H>(leaves, position, node),
{
    if let Node::Leaf { resource_id, value_hash, hash } = node {
        assert forall|x: Leaf| #[trigger]
            leaves.contains(x) && begins_as(
                x.0,
                position.path,
                position.level as int,
            ) implies x == (resource_id, value_hash) by {
            lemma_covers_by_bit(position, x.0);
            assert forall|i: int| 0 <= i < top.level implies path_bit(x.0, i) == path_bit(
                top.path,
                i,
            ) by {
                assert(path_bit(x.0, i) == path_bit(position.path, i));
                assert(path_bit(position.path, i) == path_bit(top.path, i));
            }
            assert(part.contains(x));
        }
        assert(part.contains((resource_id, value_hash)));
        if position.level > 0 {
            let x = choose|x: Leaf| #[trigger]
                part.contains(x) && x.0 != resource_id && begins_as(
                    x.0,
                    position.path,
                    position.level - 1,
                );
            assert(leaves.contains(x));
        }
    }
    if let Node::Internal { left, right, hash } = node {
        let (x, y) = choose|x: Leaf, y: Leaf|
            {
                &&& #[trigger] part.contains(x)
                &&& #[trigger] part.contains(y)
                &&& x.0 != y.0
                &&& begins_as(x.0, position.path, position.level as int)
                &&& begins_as(y.0, position.path, position.level as int)
            };
        assert(leaves.contains(x) && leaves.contains(y));
    }
}

/// The node of a half belongs to the whole.
proof fn lemma_half_belongs<H: NodeHasher>(
    half: Seq<Leaf>,
    leaves: Seq<Leaf>,
    key: Key,
    child: Key,
)
    requires
        lies_under(leaves, key),
        leaves.len() > 1,
        lies_under(half, child),
        child.level == key.level + 1,
        forall|i: int| 0 <= i < key.level ==> path_bit(child.path, i) == path_bit(key.path, i),
        forall|x: Leaf| #[trigger] half.contains(x) <==> leaves.contains(x) && child.covers(x.0),
        subtree::<H>(half, child) is Some,
    ensures
        belongs::<H>(leaves, child, subtree::<H>(half, child)->0),
{
    let node = subtree::<H>(half, child)->0;
    assert(half.contains(half[0]));
    lemma_covers_by_bit(child, half[0].0);
    if half.len() == 1 {
        assert forall|x: Leaf| #[trigger]
            leaves.contains(x) && begins_as(x.0, child.path, child.level as int) implies x
            == half[0] by {
            lemma_covers_by_bit(child, x.0);
            assert(half.contains(x));
        }
        let x = if leaves[0].0 != half[0].0 {
            leaves[0]
        } else {
            leaves[1]
        };
        assert(leaves[0].0 != leaves[1].0);
        assert(leaves.contains(x) && x.0 != half[0].0);
        assert(key.covers(x.0));
        let above = Key { path: child.path, level: key.level };
        assert forall|i: int| 0 <= i < above.level implies path_bit(x.0, i) == path_bit(
            above.path,
            i,
        ) by {
            assert(path_bit(x.0, i) == path_bit(key.path, i));
        }
        lemma_covers_by_bit(above, x.0);
        assert(begins_as(x.0, child.path, child.level - 1));
    } else {
        assert(half.contains(half[1]));
        lemma_covers_by_bit(child, half[1].0);
        assert(half[0].0 != half[1].0);
        assert(leaves.contains(half[0]) && leaves.contains(half[1]));
    }
}

/// The first bits of a child's path are those of its parent's.
proof fn lemma_child_paths(key: Key)
    requires
        key.level < 256,
    ensures
        forall|i: int|
            0 <= i < key.level ==> path_bit(key.left_child_spec().path, i) == path_bit(
                key.path,
                i,
            ),
        forall|i: int|
            0 <= i < key.level ==> path_bit(key.right_child_spec().path, i) == path_bit(
                key.path,
                i,
            ),
{
    assert forall|i: int| 0 <= i < key.level implies path_bit(key.right_child_spec().path, i)
        == path_bit(key.path, i) by {
        lemma_right_child_bits(key, i);
    }
}

proof fn lemma_below_belongs<H: NodeHasher>(leaves: Seq<Leaf>, key: Key, version: u64, i: int)
    requires
        lies_under(leaves, key),
        0 <= i < writes_below::<H>(leaves, key, version).len(),
    ensures
        ({
            let op = writes_below::<H>(leaves, key, version)[i];
            &&& op->node !is Empty
            &&& belongs::<H>(leaves, op->position, op->node)
        }),
    decreases 256 - key.level,
{
    let level = key.level as int;
    let left = zeros(leaves, level);
    let right = ones(leaves, level);
    let lk = key.left_child_spec();
    let rk = key.right_child_spec();
    let a = writes_below::<H>(left, lk, version);
    let b = writes_below::<H>(right, rk, version);
    let c = child_write(lk, version, subtree::<H>(left, lk));
    let d = child_write(rk, version, subtree::<H>(right, rk));
    let w = writes_below::<H>(leaves, key, version);
    lemma_halves(leaves, key);
    lemma_child_paths(key);
    assert(w == a + b + c + d);
    if i < a.len() {
        assert(w[i] == a[i]);
        lemma_below_belongs::<H>(left, lk, version, i);
        lemma_writes_below::<H>(left, lk, version);
        lemma_belongs_to_whole::<H>(left, leaves, lk, a[i]->position, a[i]->node);
    } else if i < a.len() + b.len() {
        let j = i - a.len();
        assert(w[i] == b[j]);
        lemma_below_belongs::<H>(right, rk, version, j);
        lemma_writes_below::<H>(right, rk, version);
        lemma_belongs_to_whole::<H>(right, leaves, rk, b[j]->position, b[j]->node);
    } else if i < a.len() + b.len() + c.len() {
        assert(w[i] == c[0]);
        lemma_half_belongs::<H>(left, leaves, key, lk);
    } else {
        assert(w[i] == d[0]);
        lemma_half_belongs::<H>(right, leaves, key, rk);
    }
}

proof fn lemma_root_lies_under(leaves: Seq<Leaf>)
    requires
        no_resource_twice(leaves),
    ensures
        lies_under(leaves, Key::root_spec()),
{
    lemma_root_clear();
}

/// Every node that a tree writes belongs where it is written.
pub proof fn lemma_written_nodes_belong<H: NodeHasher>(leaves: Seq<Leaf>, version: u64, i: int)
    requires
        no_resource_twice(leaves),
        0 <= i < tree_writes::<H>(leaves, version).len(),
    ensures
        tree_writes::<H>(leaves, version)[i] is PutNode,
        belongs::<H>(
            leaves,
            tree_writes::<H>(leaves, version)[i]->position,
            tree_writes::<H>(leaves, version)[i]->node,
        ),
{
    let root = Key::root_spec();
    let below = writes_below::<H>(leaves, root, version);
    let w = tree_writes::<H>(leaves, version);
    lemma_root_lies_under(leaves);
    lemma_tree_writes::<H>(leaves, version);
    if i < below.len() {
        assert(w[i] == below[i]);
        lemma_below_belongs::<H>(leaves, root, version, i);
    } else if leaves.len() == 1 {
        assert(leaves.contains(leaves[0]));
    } else if leaves.len() > 1 {
        assert(leaves.contains(leaves[0]) && leaves.contains(leaves[1]));
        assert(leaves[0].0 != leaves[1].0);
    }
}

proof fn lemma_leaf_in_subtree<H: NodeHasher>(leaves: Seq<Leaf>, key: Key, version: u64, x: Leaf)
    requires
        lies_under(leaves, key),
        leaves.contains(x),
    ensures
        ({
            let w = writes_below::<H>(leaves, key, version);
            subtree::<H>(leaves, key) == Some(Node::leaf_spec::<H>(x.0, x.1)) || exists|j: int|
                0 <= j < w.len() && (#[trigger] w[j])->node == Node::leaf_spec::<H>(x.0, x.1)
        }),
    decreases 256 - key.level,
{
    if leaves.len() > 1 {
        let level = key.level as int;
        let left = zeros(leaves, level);
        let right = ones(leaves, level);
        let lk = key.left_child_spec();
        let rk = key.right_child_spec();
        let a = writes_below::<H>(left, lk, version);
        let b = writes_below::<H>(right, rk, version);
        let c = child_write(lk, version, subtree::<H>(left, lk));
        let d = child_write(rk, version, subtree::<H>(right, rk));
        let w = writes_below::<H>(leaves, key, version);
        let leaf = Node::leaf_spec::<H>(x.0, x.1);
        lemma_halves(leaves, key);
        assert(w == a + b + c + d);
        if left.contains(x) {
            lemma_leaf_in_subtree::<H>(left, lk, version, x);
            if subtree::<H>(left, lk) == Some(leaf) {
                assert(w[(a.len() + b.len()) as int] == c[0]);
            } else {
                let j = choose|j: int| 0 <= j < a.len() && (#[trigger] a[j])->node == leaf;
                assert(w[j] == a[j]);
            }
        } else {
            assert(right.contains(x));
            lemma_leaf_in_subtree::<H>(right, rk, version, x);
            if subtree::<H>(right, rk) == Some(leaf) {
                assert(w[(a.len() + b.len() + c.len()) as int] == d[0]);
            } else {
                let j = choose|j: int| 0 <= j < b.len() && (#[trigger] b[j])->node == leaf;
                assert(w[a.len() + j] == b[j]);
            }
        }
    } else {
        assert(leaves[0] == x);
    }
}

/// No leaf is lost: each is written, as a node with its resource and its value's hash.
pub proof fn lemma_no_leaf_is_lost<H: NodeHasher>(leaves: Seq<Leaf>, version: u64, i: int)
    requires
        no_resource_twice(leaves),
        0 <= i < leaves.len(),
    ensures
        exists|j: int|
            {
                &&& 0 <= j < tree_writes::<H>(leaves, version).len()
                &&& (#[trigger] tree_writes::<H>(leaves, version)[j])->node matches Node::Leaf {
                    resource_id,
                    value_hash,
                    ..
                }
                &&& resource_id == leaves[i].0
                &&& value_hash == leaves[i].1
            },
{
    let root = Key::root_spec();
    let below = writes_below::<H>(leaves, root, version);
    let w = tree_writes::<H>(leaves, version);
    let leaf = Node::leaf_spec::<H>(leaves[i].0, leaves[i].1);
    lemma_root_lies_under(leaves);
    assert(leaves.contains(leaves[i]));
    lemma_leaf_in_subtree::<H>(leaves, root, version, leaves[i]);
    if subtree::<H>(leaves, root) == Some(leaf) {
        assert(w[below.len() as int]->node == leaf);
    } else {
        let j = choose|j: int| 0 <= j < below.len() && (#[trigger] below[j])->node == leaf;
        assert(w[j] == below[j]);
    }
}

/// A hash of 32 zero bytes.
pub open spec fn is_zero(hash: [u8; 32]) -> bool {
    forall|i: int| 0 <= i < 32 ==> #[trigger] hash@[i] == 0
}

/// `summary` is what a parent keeps of `node`: its hash, and whether it is a leaf.
pub open spec fn sums_up(summary: HashedNode, node: Node) -> bool {
    match node {
        Node::Empty => false,
        Node::Leaf { hash, .. } => summary.hash == hash && summary.is_leaf,
        Node::Internal { hash, .. } => summary.hash == hash && !summary.is_leaf,
    }
}

/// `op` writes, one level below `position` and on the side `side`, a node that `summary` sums up.
pub open spec fn writes_child(
    op: BatchOp,
    position: Key,
    side: bool,
    summary: HashedNode,
) -> bool {
    &&& op is PutNode
    &&& op->position.level == position.level + 1
    &&& forall|k: int|
        0 <= k < 256 ==> #[trigger] bit(op->position.path, k) == ((side && k == position.level)
            || bit(position.path, k))
    &&& sums_up(summary, op->node)
}

/// Some leaf lies under `position`, on the side `side`.
pub open spec fn has_leaf(leaves: Seq<Leaf>, position: Key, side: bool) -> bool {
    exists|x: Leaf| #[trigger]
        leaves.contains(x) && begins_as(x.0, position.path, position.level as int) && bit(
            x.0,
            position.level as int,
        ) == side
}

/// What write `i` of `ops` keeps of its child on the side `side`: where some leaf lies there, the
/// summary of a child that is written before it; otherwise 32 zero bytes.
pub open spec fn keeps_child(
    ops: Seq<BatchOp>,
    i: int,
    leaves: Seq<Leaf>,
    side: bool,
    summary: HashedNode,
) -> bool {
    if has_leaf(leaves, ops[i]->position, side) {
        exists|j: int|
            0 <= j < i && writes_child(#[trigger] ops[j], ops[i]->position, side, summary)
    } else {
        is_zero(summary.hash) && !summary.is_leaf
    }
}

/// What write `i` of `ops` keeps of both its children, if it is of a node over two.
pub open spec fn keeps_children(ops: Seq<BatchOp>, i: int, leaves: Seq<Leaf>) -> bool {
    ops[i]->node matches Node::Internal { left, right, .. } ==> {
        &&& keeps_child(ops, i, leaves, false, left)
        &&& keeps_child(ops, i, leaves, true, right)
    }
}

/// What a write of a part keeps of its children, it keeps of them in the whole.
proof fn lemma_keeps_in_whole(
    ops: Seq<BatchOp>,
    part: Seq<BatchOp>,
    at: int,
    i: int,
    half: Seq<Leaf>,
    leaves: Seq<Leaf>,
    child: Key,
)
    requires
        0 <= i < part.len(),
        0 <= at,
        at + part.len() <= ops.len(),
        part == ops.subrange(at, at + part.len()),
        keeps_children(part, i, half),
        child.level <= part[i]->position.level <= 256,
        child.covers(part[i]->position.path),
        forall|x: Leaf| #[trigger] half.contains(x) <==> leaves.contains(x) && child.covers(x.0),
    ensures
        keeps_children(ops, at + i, leaves),
{
    assert(part[i] == ops[at + i]);
    let position = part[i]->position;
    assert forall|side: bool| #[trigger] has_leaf(half, position, side) == has_leaf(
        leaves,
        position,
        side,
    ) by {
        if has_leaf(half, position, side) {
            let x = choose|x: Leaf| #[trigger]
                half.contains(x) && begins_as(x.0, position.path, position.level as int) && bit(
                    x.0,
                    position.level as int,
                ) == side;
            assert(leaves.contains(x));
        }
        if has_leaf(leaves, position, side) {
            let x = choose|x: Leaf| #[trigger]
                leaves.contains(x) && begins_as(x.0, position.path, position.level as int) && bit(
                    x.0,
                    position.level as int,
                ) == side;
            lemma_covers_by_bit(position, x.0);
            assert forall|k: int| 0 <= k < child.level implies path_bit(x.0, k) == path_bit(
                child.path,
                k,
            ) by {
                assert(path_bit(x.0, k) == path_bit(position.path, k));
                assert(path_bit(position.path, k) == path_bit(child.path, k));
            }
            assert(half.contains(x));
        }
    }
    if let Node::Internal { left, right, .. } = part[i]->node {
        assert(has_leaf(half, position, false) == has_leaf(leaves, position, false));
        assert(has_leaf(half, position, true) == has_leaf(leaves, position, true));
        if has_leaf(half, position, false) {
            let j = choose|j: int|
                0 <= j < i && writes_child(#[trigger] part[j], position, false, left);
            assert(part[j] == ops[at + j]);
        }
        if has_leaf(half, position, true) {
            let j = choose|j: int|
                0 <= j < i && writes_child(#[trigger] part[j], position, true, right);
            assert(part[j] == ops[at + j]);
        }
    }
}

/// A write of a node, after all those below it, keeps its children.
proof fn lemma_top_keeps<H: NodeHasher>(
    ops: Seq<BatchOp>,
    at: int,
    i: int,
    half: Seq<Leaf>,
    leaves: Seq<Leaf>,
    key: Key,
    version: u64,
)
    requires
        lies_under(half, key),
        forall|x: Leaf| #[trigger] half.contains(x) <==> leaves.contains(x) && key.covers(x.0),
        ({
            let below = writes_below::<H>(half, key, version);
            &&& 0 <= at
            &&& at + below.len() <= i < ops.len()
            &&& below == ops.subrange(at, at + below.len())
        }),
        ops[i]->position == key,
        subtree::<H>(half, key) == Some(ops[i]->node),
    ensures
        keeps_children(ops, i, leaves),
{
    if half.len() > 1 {
        lemma_halves(half, key);
        let level = key.level as int;
        let left = zeros(half, level);
        let right = ones(half, level);
        let lk = key.left_child_spec();
        let rk = key.right_child_spec();
        let a = writes_below::<H>(left, lk, version);
        let b = writes_below::<H>(right, rk, version);
        let c = child_write(lk, version, subtree::<H>(left, lk));
        let d = child_write(rk, version, subtree::<H>(right, rk));
        let below = writes_below::<H>(half, key, version);
        assert(below == a + b + c + d);
        lemma_side_has_leaf(half, leaves, key, false);
        lemma_side_has_leaf(half, leaves, key, true);
        assert(is_zero(EMPTY_HASH));
        lemma_child_exists::<H>(left, lk);
        lemma_child_exists::<H>(right, rk);
        if left.len() > 0 {
            let node = subtree::<H>(left, lk)->0;
            let j = at + a.len() + b.len();
            assert(below[j - at] == c[0]);
            assert(ops[j] == below[j - at]);
            assert(writes_child(ops[j], key, false, node.summary_spec()));
        }
        if right.len() > 0 {
            let node = subtree::<H>(right, rk)->0;
            let j = at + a.len() + b.len() + c.len();
            assert(below[j - at] == d[0]);
            assert(ops[j] == below[j - at]);
            assert forall|k: int| 0 <= k < 256 implies #[trigger] bit(ops[j]->position.path, k) == (
            k == key.level || bit(key.path, k)) by {
                lemma_right_child_bits(key, k);
                lemma_bit_is_digit(key.path, k);
                lemma_bit_is_digit(rk.path, k);
            }
            assert(writes_child(ops[j], key, true, node.summary_spec()));
        }
    }
}

/// A subtree has a node where it has leaves.
proof fn lemma_child_exists<H: NodeHasher>(leaves: Seq<Leaf>, key: Key)
    requires
        lies_under(leaves, key),
    ensures
        subtree::<H>(leaves, key) is None <==> leaves.len() == 0,
        subtree::<H>(leaves, key) matches Some(node) ==> node !is Empty,
{
    if leaves.len() > 1 {
        lemma_halves(leaves, key);
    }
}

/// A side has a leaf where the half for it has one.
proof fn lemma_side_has_leaf(half: Seq<Leaf>, leaves: Seq<Leaf>, key: Key, side: bool)
    requires
        lies_under(half, key),
        key.level < 256,
        half.len() > 1,
        forall|x: Leaf| #[trigger] half.contains(x) <==> leaves.contains(x) && key.covers(x.0),
    ensures
        has_leaf(leaves, key, side) <==> if side {
            ones(half, key.level as int).len() > 0
        } else {
            zeros(half, key.level as int).len() > 0
        },
{
    let level = key.level as int;
    let part = if side {
        ones(half, level)
    } else {
        zeros(half, level)
    };
    lemma_halves(half, key);
    if part.len() > 0 {
        let x = part[0];
        assert(part.contains(x));
        assert(half.contains(x));
        lemma_children_cover(key, x.0);
        lemma_covers_by_bit(key, x.0);
        lemma_bit_is_digit(x.0, level);
        assert(leaves.contains(x));
    }
    if has_leaf(leaves, key, side) {
        let x = choose|x: Leaf| #[trigger]
            leaves.contains(x) && begins_as(x.0, key.path, level) && bit(x.0, level) == side;
        lemma_covers_by_bit(key, x.0);
        lemma_bit_is_digit(x.0, level);
        assert(half.contains(x));
        lemma_children_cover(key, x.0);
        assert(part.contains(x));
    }
}

proof fn lemma_below_keeps<H: NodeHasher>(leaves: Seq<Leaf>, key: Key, version: u64, i: int)
    requires
        lies_under(leaves, key),
        0 <= i < writes_below::<H>(leaves, key, version).len(),
    ensures
        keeps_children(writes_below::<H>(leaves, key, version), i, leaves),
    decreases 256 - key.level,
{
    let level = key.level as int;
    let left = zeros(leaves, level);
    let right = ones(leaves, level);
    let lk = key.left_child_spec();
    let rk = key.right_child_spec();
    let a = writes_below::<H>(left, lk, version);
    let b = writes_below::<H>(right, rk, version);
    let c = child_write(lk, version, subtree::<H>(left, lk));
    let d = child_write(rk, version, subtree::<H>(right, rk));
    let w = writes_below::<H>(leaves, key, version);
    lemma_halves(leaves, key);
    assert(w == a + b + c + d);
    assert(a =~= w.subrange(0, a.len() as int));
    assert(b =~= w.subrange(a.len() as int, (a.len() + b.len()) as int));
    lemma_writes_below::<H>(left, lk, version);
    lemma_writes_below::<H>(right, rk, version);
    if i < a.len() {
        lemma_below_keeps::<H>(left, lk, version, i);
        lemma_keeps_in_whole(w, a, 0, i, left, leaves, lk);
    } else if i < a.len() + b.len() {
        let j = i - a.len();
        lemma_below_keeps::<H>(right, rk, version, j);
        lemma_keeps_in_whole(w, b, a.len() as int, j, right, leaves, rk);
    } else if i < a.len() + b.len() + c.len() {
        assert(w[i] == c[0]);
        lemma_top_keeps::<H>(w, 0, i, left, leaves, lk, version);
    } else {
        assert(w[i] == d[0]);
        lemma_top_keeps::<H>(w, a.len() as int, i, right, leaves, rk, version);
    }
}

/// A node over two children keeps of each of them what was written of it before, in the position
/// with the next bit zero on the left and one on the right. The side without a leaf, and no other,
/// is kept as 32 zero bytes.
pub proof fn lemma_children_are_kept<H: NodeHasher>(leaves: Seq<Leaf>, version: u64, i: int)
    requires
        no_resource_twice(leaves),
        0 <= i < tree_writes::<H>(leaves, version).len(),
    ensures
        keeps_children(tree_writes::<H>(leaves, version), i, leaves),
{
    let root = Key::root_spec();
    let ops = tree_writes::<H>(leaves, version);
    let below = writes_below::<H>(leaves, root, version);
    lemma_root_lies_under(leaves);
    lemma_writes_below::<H>(leaves, root, version);
    assert(below =~= ops.subrange(0, below.len() as int));
    assert forall|x: Leaf| leaves.contains(x) implies root.covers(x.0) by {}
    if i < below.len() {
        assert(below[i] == ops[i]);
        lemma_below_keeps::<H>(leaves, root, version, i);
        lemma_keeps_in_whole(ops, below, 0, i, leaves, leaves, root);
    } else {
        lemma_child_exists::<H>(leaves, root);
        if leaves.len() > 0 {
            lemma_top_keeps::<H>(ops, 0, i, leaves, leaves, root, version);
        }
    }
}

/// The root is written last, at level zero and under a path of zero bytes, at the version; no
/// position is written twice. The hash given back is the root's, or 32 zero bytes where there is
/// no leaf.
pub proof fn lemma_root_is_written_last<H: NodeHasher>(leaves: Seq<Leaf>, version: u64)
    ensures
        tree_writes::<H>(leaves, version).len() > 0,
        ({
            let ops = tree_writes::<H>(leaves, version);
            let root = root_node::<H>(leaves).hash_spec();
            &&& ops.last()->position.level == 0
            &&& is_zero(ops.last()->position.path)
            &&& match ops.last()->node {
                Node::Empty => leaves.len() == 0 && is_zero(root),
                Node::Leaf { hash, .. } => leaves.len() == 1 && root == hash,
                Node::Internal { hash, .. } => leaves.len() > 1 && root == hash,
            }
            &&& forall|i: int|
                #![trigger ops[i]]
                0 <= i < ops.len() ==> ops[i] is PutNode && ops[i]->version == version
            &&& forall|i: int, j: int|
                #![trigger ops[i], ops[j]]
                0 <= i < j < ops.len() ==> ops[i]->position != ops[j]->position
        }),
{
    lemma_tree_writes::<H>(leaves, version);
    let z = Seq::new(32, |i: int| 0u8);
    let a = vstd::array::spec_array_fill_for_copy_type::<u8, 32>(0u8);
    assert(a@ =~= z);
    crate::bytes::lemma_array32(a);
    assert(Key::root_spec().path@ == z);
}

/// What SHA-256 hashes for a node: a zero byte, the resource and the hash of its value for a leaf;
/// a one byte and the hashes of both children for a node over two.
pub open spec fn spelled(node: Node) -> Seq<u8> {
    match node {
        Node::Empty => Seq::empty(),
        Node::Leaf { resource_id, value_hash, .. } => seq![0u8] + resource_id@ + value_hash@,
        Node::Internal { left, right, .. } => seq![1u8] + left.hash@ + right.hash@,
    }
}

/// What is hashed for a node determines what the node holds: of a leaf, its resource and the hash
/// of its value; of a node over two children, the hashes of both.
pub proof fn lemma_spelled_determines(a: Node, b: Node)
    requires
        spelled(a) == spelled(b),
    ensures
        match a {
            Node::Empty => b is Empty,
            Node::Leaf { resource_id, value_hash, .. } => b is Leaf && b->resource_id
                == resource_id && b->value_hash == value_hash,
            Node::Internal { left, right, .. } => b is Internal && b->left.hash == left.hash
                && b->right.hash == right.hash,
        },
{
    let s = spelled(a);
    let t = spelled(b);
    assert(s.len() == t.len());
    match (a, b) {
        (
            Node::Leaf { resource_id: p, value_hash: x, .. },
            Node::Leaf { resource_id: q, value_hash: y, .. },
        ) => {
            assert(s.subrange(1, 33) =~= p@ && s.subrange(33, 65) =~= x@);
            assert(t.subrange(1, 33) =~= q@ && t.subrange(33, 65) =~= y@);
            lemma_array_view_eq(p, q);
            lemma_array_view_eq(x, y);
        },
        (
            Node::Internal { left: p, right: x, .. },
            Node::Internal { left: q, right: y, .. },
        ) => {
            assert(s.subrange(1, 33) =~= p.hash@ && s.subrange(33, 65) =~= x.hash@);
            assert(t.subrange(1, 33) =~= q.hash@ && t.subrange(33, 65) =~= y.hash@);
            lemma_array_view_eq(p.hash, q.hash);
            lemma_array_view_eq(x.hash, y.hash);
        },
        (Node::Empty, Node::Empty) => {},
        _ => {
            assert(s.len() == 0 || t.len() == 0 || s[0] != t[0]);
        },
    }
}

/// With SHA-256, the hash of a written node is the digest of what the node spells.
pub proof fn lemma_written_hash_is_digest(leaves: Seq<Leaf>, version: u64, i: int)
    requires
        no_resource_twice(leaves),
        0 <= i < tree_writes::<Sha256>(leaves, version).len(),
    ensures
        match tree_writes::<Sha256>(leaves, version)[i]->node {
            Node::Empty => leaves.len() == 0,
            Node::Leaf { resource_id, value_hash, hash } => hash == Sha256::digest(
                seq![0u8] + resource_id@ + value_hash@,
            ),
            Node::Internal { left, right, hash } => hash == Sha256::digest(
                seq![1u8] + left.hash@ + right.hash@,
            ),
        },
{
    lemma_written_nodes_belong::<Sha256>(leaves, version, i);
}

/// `s` is hashed for a node of the tree over `leaves`.
pub open spec fn is_hashed(leaves: Seq<Leaf>, s: Seq<u8>) -> bool {
    exists|i: int|
        0 <= i < tree_writes::<Sha256>(leaves, 1).len() && s == spelled(
            (#[trigger] tree_writes::<Sha256>(leaves, 1)[i])->node,
        ) && s.len() > 0
}

/// `s` is hashed for a node at `key` or below it.
spec fn hashed_at(leaves: Seq<Leaf>, key: Key, s: Seq<u8>) -> bool {
    ||| subtree::<Sha256>(leaves, key) matches Some(node) && s == spelled(node)
    ||| exists|i: int|
        0 <= i < writes_below::<Sha256>(leaves, key, 1).len() && s == spelled(
            (#[trigger] writes_below::<Sha256>(leaves, key, 1)[i])->node,
        )
}

/// Two different strings, hashed for two subtrees, with one digest.
spec fn clash_at(a: Seq<Leaf>, b: Seq<Leaf>, key: Key) -> bool {
    exists|x: Seq<u8>, y: Seq<u8>|
        {
            &&& #[trigger] hashed_at(a, key, x)
            &&& #[trigger] hashed_at(b, key, y)
            &&& x != y
            &&& Sha256::digest(x) == Sha256::digest(y)
        }
}

/// A string, hashed for one of two subtrees, with the digest that stands for no leaf.
spec fn void_at(a: Seq<Leaf>, b: Seq<Leaf>, key: Key) -> bool {
    ||| exists|x: Seq<u8>| #[trigger] hashed_at(a, key, x) && is_zero(Sha256::digest(x))
    ||| exists|x: Seq<u8>| #[trigger] hashed_at(b, key, x) && is_zero(Sha256::digest(x))
}

proof fn lemma_hashed_in_half(leaves: Seq<Leaf>, key: Key, left: bool, s: Seq<u8>)
    requires
        leaves.len() > 1,
        key.level < 256,
        if left {
            hashed_at(zeros(leaves, key.level as int), key.left_child_spec(), s)
        } else {
            hashed_at(ones(leaves, key.level as int), key.right_child_spec(), s)
        },
    ensures
        hashed_at(leaves, key, s),
{
    let level = key.level as int;
    let z = zeros(leaves, level);
    let o = ones(leaves, level);
    let lk = key.left_child_spec();
    let rk = key.right_child_spec();
    let a = writes_below::<Sha256>(z, lk, 1);
    let b = writes_below::<Sha256>(o, rk, 1);
    let c = child_write(lk, 1, subtree::<Sha256>(z, lk));
    let d = child_write(rk, 1, subtree::<Sha256>(o, rk));
    let w = writes_below::<Sha256>(leaves, key, 1);
    assert(w == a + b + c + d);
    if left {
        if subtree::<Sha256>(z, lk) matches Some(node) && s == spelled(node) {
            assert(w[(a.len() + b.len()) as int] == c[0]);
        } else {
            let i = choose|i: int| 0 <= i < a.len() && s == spelled((#[trigger] a[i])->node);
            assert(w[i] == a[i]);
        }
    } else {
        if subtree::<Sha256>(o, rk) matches Some(node) && s == spelled(node) {
            assert(w[(a.len() + b.len() + c.len()) as int] == d[0]);
        } else {
            let i = choose|i: int| 0 <= i < b.len() && s == spelled((#[trigger] b[i])->node);
            assert(w[a.len() + i] == b[i]);
        }
    }
}

/// A clash or a void of two halves is one of the wholes.
proof fn lemma_clash_in_half(a: Seq<Leaf>, b: Seq<Leaf>, key: Key, left: bool)
    requires
        a.len() > 1,
        b.len() > 1,
        key.level < 256,
    ensures
        ({
            let level = key.level as int;
            let (x, y, child) = if left {
                (zeros(a, level), zeros(b, level), key.left_child_spec())
            } else {
                (ones(a, level), ones(b, level), key.right_child_spec())
            };
            &&& clash_at(x, y, child) ==> clash_at(a, b, key)
            &&& void_at(x, y, child) ==> void_at(a, b, key)
        }),
{
    let level = key.level as int;
    let (x, y, child) = if left {
        (zeros(a, level), zeros(b, level), key.left_child_spec())
    } else {
        (ones(a, level), ones(b, level), key.right_child_spec())
    };
    if clash_at(x, y, child) {
        let (s, t) = choose|s: Seq<u8>, t: Seq<u8>|
            {
                &&& #[trigger] hashed_at(x, child, s)
                &&& #[trigger] hashed_at(y, child, t)
                &&& s != t
                &&& Sha256::digest(s) == Sha256::digest(t)
            };
        lemma_hashed_in_half(a, key, left, s);
        lemma_hashed_in_half(b, key, left, t);
    }
    if void_at(x, y, child) {
        if exists|s: Seq<u8>| #[trigger] hashed_at(x, child, s) && is_zero(Sha256::digest(s)) {
            let s = choose|s: Seq<u8>| #[trigger]
                hashed_at(x, child, s) && is_zero(Sha256::digest(s));
            lemma_hashed_in_half(a, key, left, s);
        } else {
            let s = choose|s: Seq<u8>| #[trigger]
                hashed_at(y, child, s) && is_zero(Sha256::digest(s));
            lemma_hashed_in_half(b, key, left, s);
        }
    }
}

/// Two lists hold the same leaves.
pub open spec fn same_leaves(a: Seq<Leaf>, b: Seq<Leaf>) -> bool {
    forall|x: Leaf| #[trigger] a.contains(x) <==> b.contains(x)
}

/// The node of a subtree with leaves is hashed, and its hash is the digest of what it spells.
proof fn lemma_subtree_hash(leaves: Seq<Leaf>, key: Key)
    requires
        lies_under(leaves, key),
        leaves.len() > 0,
    ensures
        subtree::<Sha256>(leaves, key) is Some,
        ({
            let node = subtree::<Sha256>(leaves, key)->0;
            &&& node is Leaf <==> leaves.len() == 1
            &&& node is Internal <==> leaves.len() > 1
            &&& node.hash_spec() == Sha256::digest(spelled(node))
            &&& hashed_at(leaves, key, spelled(node))
        }),
{
    if leaves.len() > 1 {
        lemma_halves(leaves, key);
    }
}

/// Halves with the same hash as children hold the same leaves, unless there is a clash or a void.
proof fn lemma_halves_bind(a: Seq<Leaf>, b: Seq<Leaf>, key: Key)
    requires
        lies_under(a, key),
        lies_under(b, key),
        child_summary(subtree::<Sha256>(a, key)).hash == child_summary(
            subtree::<Sha256>(b, key),
        ).hash,
    ensures
        same_leaves(a, b) || clash_at(a, b, key) || void_at(a, b, key),
    decreases 256 - key.level, 1int,
{
    if a.len() > 0 {
        lemma_subtree_hash(a, key);
    }
    if b.len() > 0 {
        lemma_subtree_hash(b, key);
    }
    assert(is_zero(EMPTY_HASH));
    if a.len() > 0 && b.len() > 0 {
        lemma_subtrees_bind(a, b, key);
    } else if a.len() > 0 {
        let s = spelled(subtree::<Sha256>(a, key)->0);
        assert(subtree::<Sha256>(b, key) is None);
        assert(Sha256::digest(s) == EMPTY_HASH);
        assert(hashed_at(a, key, s));
        assert(void_at(a, b, key));
    } else if b.len() > 0 {
        let s = spelled(subtree::<Sha256>(b, key)->0);
        assert(subtree::<Sha256>(a, key) is None);
        assert(Sha256::digest(s) == EMPTY_HASH);
        assert(hashed_at(b, key, s));
        assert(void_at(a, b, key));
    } else {
        assert(a =~= b);
    }
}

/// Subtrees with the same hash hold the same leaves, unless there is a clash or a void.
proof fn lemma_subtrees_bind(a: Seq<Leaf>, b: Seq<Leaf>, key: Key)
    requires
        lies_under(a, key),
        lies_under(b, key),
        a.len() > 0,
        b.len() > 0,
        subtree::<Sha256>(a, key) is Some,
        subtree::<Sha256>(b, key) is Some,
        subtree::<Sha256>(a, key)->0.hash_spec() == subtree::<Sha256>(b, key)->0.hash_spec(),
    ensures
        same_leaves(a, b) || clash_at(a, b, key) || void_at(a, b, key),
    decreases 256 - key.level, 0int,
{
    let na = subtree::<Sha256>(a, key)->0;
    let nb = subtree::<Sha256>(b, key)->0;
    lemma_subtree_hash(a, key);
    lemma_subtree_hash(b, key);
    if spelled(na) == spelled(nb) {
        lemma_spelled_determines(na, nb);
        if a.len() == 1 {
            assert(a[0] == b[0]);
            assert(a =~= b);
        } else {
            let level = key.level as int;
            lemma_halves(a, key);
            lemma_halves(b, key);
            lemma_halves_bind(zeros(a, level), zeros(b, level), key.left_child_spec());
            lemma_halves_bind(ones(a, level), ones(b, level), key.right_child_spec());
            lemma_clash_in_half(a, b, key, true);
            lemma_clash_in_half(a, b, key, false);
            if same_leaves(zeros(a, level), zeros(b, level)) && same_leaves(
                ones(a, level),
                ones(b, level),
            ) {
                assert forall|x: Leaf| #[trigger] a.contains(x) <==> b.contains(x) by {
                    assert(zeros(a, level).contains(x) <==> zeros(b, level).contains(x));
                    assert(ones(a, level).contains(x) <==> ones(b, level).contains(x));
                }
            }
        }
    }
}

proof fn lemma_hashed_at_root(leaves: Seq<Leaf>, s: Seq<u8>)
    requires
        no_resource_twice(leaves),
        hashed_at(leaves, Key::root_spec(), s),
    ensures
        is_hashed(leaves, s),
{
    let root = Key::root_spec();
    let below = writes_below::<Sha256>(leaves, root, 1);
    let w = tree_writes::<Sha256>(leaves, 1);
    lemma_root_lies_under(leaves);
    if subtree::<Sha256>(leaves, root) matches Some(node) && s == spelled(node) {
        assert(s == spelled(w[below.len() as int]->node));
    } else {
        let i = choose|i: int| 0 <= i < below.len() && s == spelled((#[trigger] below[i])->node);
        assert(w[i] == below[i]);
        lemma_below_belongs::<Sha256>(leaves, root, 1, i);
    }
}

/// The root binds the leaves. If the trees over two lists of leaves, none with two for one
/// resource, have the same root under SHA-256, then the lists hold the same leaves; or among the
/// strings that are hashed for the two trees, one for each, there are two different ones with the
/// same digest; or one of those strings has the digest of 32 zero bytes, which stands for no
/// leaves without anything being hashed.
pub proof fn lemma_root_binds_leaves(a: Seq<Leaf>, b: Seq<Leaf>)
    requires
        no_resource_twice(a),
        no_resource_twice(b),
        root_node::<Sha256>(a).hash_spec() == root_node::<Sha256>(b).hash_spec(),
    ensures
        ({
            ||| forall|x: Leaf| #[trigger] a.contains(x) <==> b.contains(x)
            ||| exists|x: Seq<u8>, y: Seq<u8>|
                #[trigger] is_hashed(a, x) && #[trigger] is_hashed(b, y) && x != y
                    && Sha256::digest(x) == Sha256::digest(y)
            ||| exists|x: Seq<u8>| #[trigger] is_hashed(a, x) && is_zero(Sha256::digest(x))
            ||| exists|x: Seq<u8>| #[trigger] is_hashed(b, x) && is_zero(Sha256::digest(x))
        }),
{
    let root = Key::root_spec();
    lemma_root_lies_under(a);
    lemma_root_lies_under(b);
    lemma_halves_bind(a, b, root);
    if clash_at(a, b, root) {
        let (s, t) = choose|s: Seq<u8>, t: Seq<u8>|
            {
                &&& #[trigger] hashed_at(a, root, s)
                &&& #[trigger] hashed_at(b, root, t)
                &&& s != t
                &&& Sha256::digest(s) == Sha256::digest(t)
            };
        lemma_hashed_at_root(a, s);
        lemma_hashed_at_root(b, t);
    }
    if void_at(a, b, root) {
        if exists|s: Seq<u8>| #[trigger] hashed_at(a, root, s) && is_zero(Sha256::digest(s)) {
            let s = choose|s: Seq<u8>| #[trigger]
                hashed_at(a, root, s) && is_zero(Sha256::digest(s));
            lemma_hashed_at_root(a, s);
        } else {
            let s = choose|s: Seq<u8>| #[trigger]
                hashed_at(b, root, s) && is_zero(Sha256::digest(s));
            lemma_hashed_at_root(b, s);
        }
    }
}

} // verus!
