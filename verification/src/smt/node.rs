//! Tree nodes, their summaries and the hashes that bind them.
//!
//! The tree is built over any [`NodeHasher`]. The one given here, on SHA-256, and the hash of an
//! empty tree are choices of this library: a tree that is hashed otherwise brings its own.

use vstd::prelude::*;

use crate::bytes::push_bytes;
use crate::hashing::{Hasher, Sha256};

verus! {

/// Identifies a resource; also its path in the tree.
pub type ResourceId = [u8; 32];

/// Hash of an empty tree.
pub const EMPTY_HASH: [u8; 32] = [
    0, 0, 0, 0, 0, 0, 0, 0, 0, 0, 0, 0, 0, 0, 0, 0, 0, 0, 0, 0, 0, 0, 0, 0, 0, 0, 0, 0, 0, 0, 0, 0,
];

/// What a parent keeps of a child.
#[derive(Clone, Copy, Debug)]
pub struct HashedNode {
    pub hash: [u8; 32],
    pub is_leaf: bool,
}

impl HashedNode {
    /// The summary of an absent child.
    pub open spec fn empty_spec() -> HashedNode {
        HashedNode { hash: EMPTY_HASH, is_leaf: false }
    }

    /// The summary of an absent child.
    pub fn empty() -> (r: HashedNode)
        ensures
            r == HashedNode::empty_spec(),
    {
        HashedNode { hash: EMPTY_HASH, is_leaf: false }
    }
}

/// A node of the tree.
#[derive(Clone, Copy, Debug)]
pub enum Node {
    /// The root of a tree without leaves.
    Empty,
    /// The only leaf of its subtree, whatever the depth of its path.
    Leaf { resource_id: ResourceId, value_hash: [u8; 32], hash: [u8; 32] },
    /// A subtree of two or more leaves.
    Internal { left: HashedNode, right: HashedNode, hash: [u8; 32] },
}

/// The hashes that bind a node to its contents.
pub trait NodeHasher: Hasher {
    /// The hash of a leaf.
    spec fn leaf_digest(resource_id: ResourceId, value_hash: [u8; 32]) -> [u8; 32];

    /// The hash of a node over its two children.
    spec fn internal_digest(left: HashedNode, right: HashedNode) -> [u8; 32];

    /// Computes the hash of a leaf.
    fn hash_leaf(resource_id: &ResourceId, value_hash: &[u8; 32]) -> (r: [u8; 32])
        ensures
            r == Self::leaf_digest(*resource_id, *value_hash),
    ;

    /// Computes the hash of a node over its two children.
    fn hash_internal(left: &HashedNode, right: &HashedNode) -> (r: [u8; 32])
        ensures
            r == Self::internal_digest(*left, *right),
    ;
}

impl Node {
    /// The leaf of `resource_id`.
    pub open spec fn leaf_spec<H: NodeHasher>(
        resource_id: ResourceId,
        value_hash: [u8; 32],
    ) -> Node {
        Node::Leaf { resource_id, value_hash, hash: H::leaf_digest(resource_id, value_hash) }
    }

    /// The node over two children.
    pub open spec fn internal_spec<H: NodeHasher>(left: HashedNode, right: HashedNode) -> Node {
        Node::Internal { left, right, hash: H::internal_digest(left, right) }
    }

    /// The hash of a node.
    pub open spec fn hash_spec(self) -> [u8; 32] {
        match self {
            Node::Empty => EMPTY_HASH,
            Node::Leaf { hash, .. } => hash,
            Node::Internal { hash, .. } => hash,
        }
    }

    /// What a parent keeps of this node.
    pub open spec fn summary_spec(self) -> HashedNode {
        HashedNode { hash: self.hash_spec(), is_leaf: self is Leaf }
    }

    /// Makes the leaf of `resource_id`.
    pub fn leaf<H: NodeHasher>(resource_id: ResourceId, value_hash: [u8; 32]) -> (n: Node)
        ensures
            n == Node::leaf_spec::<H>(resource_id, value_hash),
    {
        let hash = H::hash_leaf(&resource_id, &value_hash);
        Node::Leaf { resource_id, value_hash, hash }
    }

    /// Makes the node over two children.
    pub fn internal<H: NodeHasher>(left: &HashedNode, right: &HashedNode) -> (n: Node)
        ensures
            n == Node::internal_spec::<H>(*left, *right),
    {
        let hash = H::hash_internal(left, right);
        Node::Internal { left: *left, right: *right, hash }
    }

    /// The hash of this node.
    pub fn hash(&self) -> (r: [u8; 32])
        ensures
            r == self.hash_spec(),
    {
        match self {
            Node::Empty => EMPTY_HASH,
            Node::Leaf { hash, .. } => *hash,
            Node::Internal { hash, .. } => *hash,
        }
    }

    /// What a parent keeps of this node.
    pub fn summary(&self) -> (r: HashedNode)
        ensures
            r == self.summary_spec(),
    {
        let is_leaf = match self {
            Node::Leaf { .. } => true,
            _ => false,
        };
        HashedNode { hash: self.hash(), is_leaf }
    }
}

/// The bytes that SHA-256 hashes for a leaf: a zero byte, the path, the hash of the value.
pub open spec fn leaf_preimage(resource_id: Seq<u8>, value_hash: Seq<u8>) -> Seq<u8> {
    seq![0u8] + resource_id + value_hash
}

/// The bytes that SHA-256 hashes for an internal node: a one byte and the hashes of the children.
pub open spec fn internal_preimage(left: Seq<u8>, right: Seq<u8>) -> Seq<u8> {
    seq![1u8] + left + right
}

impl NodeHasher for Sha256 {
    open spec fn leaf_digest(resource_id: ResourceId, value_hash: [u8; 32]) -> [u8; 32] {
        Sha256::digest(leaf_preimage(resource_id@, value_hash@))
    }

    open spec fn internal_digest(left: HashedNode, right: HashedNode) -> [u8; 32] {
        Sha256::digest(internal_preimage(left.hash@, right.hash@))
    }

    fn hash_leaf(resource_id: &ResourceId, value_hash: &[u8; 32]) -> (r: [u8; 32]) {
        let mut data: Vec<u8> = Vec::new();
        data.push(0u8);
        push_bytes(&mut data, resource_id.as_slice());
        push_bytes(&mut data, value_hash.as_slice());
        assert(data@ =~= leaf_preimage(resource_id@, value_hash@));
        Sha256::hash(data.as_slice())
    }

    fn hash_internal(left: &HashedNode, right: &HashedNode) -> (r: [u8; 32]) {
        let mut data: Vec<u8> = Vec::new();
        data.push(1u8);
        push_bytes(&mut data, left.hash.as_slice());
        push_bytes(&mut data, right.hash.as_slice());
        assert(data@ =~= internal_preimage(left.hash@, right.hash@));
        Sha256::hash(data.as_slice())
    }
}

} // verus!
