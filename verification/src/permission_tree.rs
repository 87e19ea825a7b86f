//! Exit leaves and the hashes of the permission tree over them.
//!
//! What is hashed for a leaf, for a branch and for a place without a leaf, which scripts an exit
//! can pay to, and that no leaf and one leaf alike make a tree of depth zero, are choices of this
//! library. A root compares only with one that was hashed in the same way.

use vstd::arithmetic::power2::pow2;
use vstd::prelude::*;

use crate::bytes::{le_bytes, push_bytes, push_le};
use crate::hashing::{Hasher, Sha256};

verus! {

/// A standard script that an exit pays to.
#[derive(Clone, Copy, Debug)]
pub enum StandardSpk<'a> {
    /// Pays to a public key.
    PubKey(&'a [u8; 32]),
}

/// One exit: whom it pays and how much.
#[derive(Clone, Copy, Debug)]
pub struct ExitLeaf {
    pub pub_key: [u8; 32],
    pub amount: u64,
}

impl ExitLeaf {
    /// The exit that pays `amount` to `spk`.
    pub fn from_pair(spk: StandardSpk, amount: u64) -> (r: ExitLeaf)
        ensures
            spk == StandardSpk::PubKey(&r.pub_key),
            r.amount == amount,
    {
        match spk {
            StandardSpk::PubKey(key) => ExitLeaf { pub_key: *key, amount },
        }
    }

    /// The script that this exit pays to.
    pub fn to_standard_spk(&self) -> (r: StandardSpk<'_>)
        ensures
            r == StandardSpk::PubKey(&self.pub_key),
    {
        StandardSpk::PubKey(&self.pub_key)
    }
}

/// The bytes that are hashed for a leaf: a zero byte, the key, the amount in eight bytes.
pub open spec fn exit_leaf_preimage(key: Seq<u8>, amount: u64) -> Seq<u8> {
    seq![0u8] + key + le_bytes(amount as nat, 8)
}

/// The bytes that are hashed for a branch: a one byte and the two children.
pub open spec fn branch_preimage(left: Seq<u8>, right: Seq<u8>) -> Seq<u8> {
    seq![1u8] + left + right
}

/// The hash of a leaf.
pub open spec fn exit_leaf_hash(spk: StandardSpk, amount: u64) -> [u8; 32] {
    match spk {
        StandardSpk::PubKey(key) => Sha256::digest(exit_leaf_preimage(key@, amount)),
    }
}

/// The hash of a branch.
pub open spec fn branch_hash(left: [u8; 32], right: [u8; 32]) -> [u8; 32] {
    Sha256::digest(branch_preimage(left@, right@))
}

/// The hash of a place that no leaf takes.
pub open spec fn empty_place_hash() -> [u8; 32] {
    Sha256::digest(seq![2u8])
}

/// The smallest depth at which a binary tree has room for `count` leaves.
pub open spec fn is_required_depth(count: nat, depth: nat) -> bool {
    &&& count <= pow2(depth)
    &&& depth > 0 ==> pow2((depth - 1) as nat) < count
}

/// The hashes of the permission tree.
pub struct PermissionTreeAccumulator;

impl PermissionTreeAccumulator {
    /// The hash of a leaf.
    pub fn hash_leaf(spk: StandardSpk, amount: u64) -> (r: [u8; 32])
        ensures
            r == exit_leaf_hash(spk, amount),
    {
        match spk {
            StandardSpk::PubKey(key) => {
                let mut data: Vec<u8> = Vec::new();
                data.push(0u8);
                push_bytes(&mut data, key.as_slice());
                push_le(&mut data, amount, 8);
                assert(data@ =~= exit_leaf_preimage(key@, amount));
                Sha256::hash(data.as_slice())
            },
        }
    }

    /// The hash of a branch.
    pub fn hash_branch(left: &[u8; 32], right: &[u8; 32]) -> (r: [u8; 32])
        ensures
            r == branch_hash(*left, *right),
    {
        let mut data: Vec<u8> = Vec::new();
        data.push(1u8);
        push_bytes(&mut data, left.as_slice());
        push_bytes(&mut data, right.as_slice());
        assert(data@ =~= branch_preimage(left@, right@));
        Sha256::hash(data.as_slice())
    }

    /// The hash of a place that no leaf takes.
    pub fn hash_empty() -> (r: [u8; 32])
        ensures
            r == empty_place_hash(),
    {
        let mut data: Vec<u8> = Vec::new();
        data.push(2u8);
        assert(data@ =~= seq![2u8]);
        Sha256::hash(data.as_slice())
    }

    /// The smallest depth with room for `count` leaves.
    pub fn required_depth(count: usize) -> (depth: usize)
        requires
            count <= usize::MAX / 2 + 1,
        ensures
            is_required_depth(count as nat, depth as nat),
            depth < pow2(depth as nat) <= usize::MAX,
            depth < usize::BITS,
    {
        let mut depth: usize = 0;
        let mut room: usize = 1;
        proof {
            vstd::arithmetic::power2::lemma2_to64();
        }
        while room < count
            invariant
                count <= usize::MAX / 2 + 1,
                room == pow2(depth as nat),
                depth < room,
                depth > 0 ==> pow2((depth - 1) as nat) < count,
            decreases 2 * count - room,
        {
            proof {
                vstd::arithmetic::power2::lemma_pow2_unfold((depth + 1) as nat);
            }
            room = room * 2;
            depth += 1;
        }
        proof {
            if depth >= usize::BITS {
                vstd::arithmetic::power2::lemma2_to64();
                if depth > usize::BITS {
                    vstd::arithmetic::power2::lemma_pow2_strictly_increases(
                        usize::BITS as nat,
                        depth as nat,
                    );
                }
                assert(pow2(usize::BITS as nat) > usize::MAX);
            }
        }
        depth
    }
}

} // verus!
