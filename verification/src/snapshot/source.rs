//! What a snapshot is made from: the committed state of a node, as read from its store.

use vstd::prelude::*;

use crate::assoc::{AssocMap, KeyEq};
use crate::bytes::{copy_bytes, equal32};
use crate::exit_index::decode_root;
use crate::l1::{ChainBlockMetadata, Hash32};
use crate::smt::node::{ResourceId, EMPTY_HASH};

verus! {

/// Whose node it is, as far as its settings say so.
#[derive(Clone, Copy, Debug)]
pub struct NodeIdentity {
    pub covenant_id: Option<Hash32>,
    pub lane_id: Option<u32>,
    pub bootstrap_txid: Option<Hash32>,
}

/// A version of a resource.
struct VersionKey {
    version: u64,
    resource_id: ResourceId,
}

impl KeyEq for VersionKey {
    type Model = (u64, ResourceId);

    closed spec fn model(&self) -> (u64, ResourceId) {
        (self.version, self.resource_id)
    }

    fn same(&self, other: &VersionKey) -> (r: bool) {
        self.version == other.version && equal32(&self.resource_id, &other.resource_id)
    }
}

/// The index of a batch.
struct BatchKey {
    index: u64,
}

impl KeyEq for BatchKey {
    type Model = u64;

    closed spec fn model(&self) -> u64 {
        self.index
    }

    fn same(&self, other: &BatchKey) -> (r: bool) {
        self.index == other.index
    }
}

/// A resource and the version it had before a batch.
pub type RollbackPointer = (ResourceId, u64);

/// The committed state of a node.
pub struct NodeState {
    tip_index: u64,
    tip_metadata: ChainBlockMetadata,
    retained_root: u64,
    batches: AssocMap<BatchKey, ChainBlockMetadata>,
    state_roots: AssocMap<BatchKey, [u8; 32]>,
    latest: AssocMap<ResourceId, u64>,
    rollbacks: AssocMap<BatchKey, Vec<RollbackPointer>>,
    values: AssocMap<VersionKey, Vec<u8>>,
}

/// The contents of a node's state.
#[verifier::ext_equal]
pub struct NodeModel {
    /// The index of the last committed batch.
    pub tip_index: u64,
    /// The metadata of the last committed batch.
    pub tip_metadata: ChainBlockMetadata,
    /// The oldest batch that is retained.
    pub retained_root: u64,
    /// The metadata of each batch.
    pub batches: Map<u64, ChainBlockMetadata>,
    /// The state root after each batch.
    pub state_roots: Map<u64, [u8; 32]>,
    /// The latest version of each resource.
    pub latest: Map<ResourceId, u64>,
    /// For each batch, the resources it changed and the versions they had before.
    pub rollbacks: Map<u64, Seq<RollbackPointer>>,
    /// The value of each version of a resource.
    pub values: Map<(u64, ResourceId), Seq<u8>>,
}

impl NodeModel {
    /// The block that batch `n` comes from, if the batch is known.
    pub open spec fn block_of(self, n: u64) -> Option<Hash32> {
        if self.batches.contains_key(n) {
            Some(self.batches[n].hash)
        } else {
            None
        }
    }

    /// The state root after batch `n`: that of an empty tree where none is known.
    pub open spec fn root_at(self, n: u64) -> [u8; 32] {
        if self.state_roots.contains_key(n) {
            self.state_roots[n]
        } else {
            EMPTY_HASH
        }
    }

    /// The rollback pointers of batch `n`.
    pub open spec fn rollbacks_of(self, n: u64) -> Seq<RollbackPointer> {
        if self.rollbacks.contains_key(n) {
            self.rollbacks[n]
        } else {
            Seq::empty()
        }
    }

    /// The value of a version of a resource: empty where there is none.
    pub open spec fn value_of(self, version: u64, resource_id: ResourceId) -> Seq<u8> {
        if self.values.contains_key((version, resource_id)) {
            self.values[(version, resource_id)]
        } else {
            Seq::empty()
        }
    }
}

impl View for NodeState {
    type V = NodeModel;

    closed spec fn view(&self) -> NodeModel {
        NodeModel {
            tip_index: self.tip_index,
            tip_metadata: self.tip_metadata,
            retained_root: self.retained_root,
            batches: self.batches@,
            state_roots: self.state_roots@,
            latest: self.latest@,
            rollbacks: self.rollbacks@.map_values(|v: Vec<RollbackPointer>| v@),
            values: self.values@.map_values(|v: Vec<u8>| v@),
        }
    }
}

impl NodeState {
    /// A node whose last committed batch is `tip_index` and that retains no batch before
    /// `retained_root`.
    pub fn new(tip_index: u64, tip_metadata: ChainBlockMetadata, retained_root: u64) -> (r:
        NodeState)
        ensures
            r@ == (NodeModel {
                tip_index,
                tip_metadata,
                retained_root,
                batches: Map::empty(),
                state_roots: Map::empty(),
                latest: Map::empty(),
                rollbacks: Map::empty(),
                values: Map::empty(),
            }),
    {
        let r = NodeState {
            tip_index,
            tip_metadata,
            retained_root,
            batches: AssocMap::new(),
            state_roots: AssocMap::new(),
            latest: AssocMap::new(),
            rollbacks: AssocMap::new(),
            values: AssocMap::new(),
        };
        assert(r@.rollbacks =~= Map::empty());
        assert(r@.values =~= Map::empty());
        r
    }

    /// Adds a batch: its metadata and the state root after it.
    pub fn put_batch(&mut self, n: u64, metadata: ChainBlockMetadata, state_root: [u8; 32])
        ensures
            final(self)@ == (NodeModel {
                batches: old(self)@.batches.insert(n, metadata),
                state_roots: old(self)@.state_roots.insert(n, state_root),
                ..old(self)@
            }),
    {
        self.batches.insert(BatchKey { index: n }, metadata);
        self.state_roots.insert(BatchKey { index: n }, state_root);
    }

    /// Sets the latest version of a resource.
    pub fn put_latest(&mut self, resource_id: ResourceId, version: u64)
        ensures
            final(self)@ == (NodeModel {
                latest: old(self)@.latest.insert(resource_id, version),
                ..old(self)@
            }),
    {
        self.latest.insert(resource_id, version);
    }

    /// Adds a rollback pointer to batch `n`. Refuses an encoded resource that is not one.
    pub fn put_rollback(&mut self, n: u64, encoded_id: &[u8], old_version: u64) -> (r: bool)
        ensures
            r == (encoded_id@.len() == 32),
            !r ==> final(self)@ == old(self)@,
            r ==> final(self)@ == (NodeModel {
                rollbacks: old(self)@.rollbacks.insert(
                    n,
                    old(self)@.rollbacks_of(n).push(
                        (crate::bytes::array32(encoded_id@), old_version),
                    ),
                ),
                ..old(self)@
            }),
    {
        let id = match decode_root(encoded_id) {
            Some(id) => id,
            None => {
                return false;
            },
        };
        proof {
            crate::bytes::lemma_array32(id);
        }
        let mut list: Vec<RollbackPointer> = match self.rollbacks.remove(&BatchKey { index: n }) {
            Some(list) => list,
            None => Vec::new(),
        };
        assert(list@ =~= old(self)@.rollbacks_of(n));
        list.push((id, old_version));
        self.rollbacks.insert(BatchKey { index: n }, list);
        assert(self@.rollbacks =~= old(self)@.rollbacks.insert(n, list@));
        true
    }

    /// Sets the value of a version of a resource.
    pub fn put_value(&mut self, version: u64, resource_id: ResourceId, value: &[u8])
        ensures
            final(self)@ == (NodeModel {
                values: old(self)@.values.insert((version, resource_id), value@),
                ..old(self)@
            }),
    {
        let v = copy_bytes(value);
        self.values.insert(VersionKey { version, resource_id }, v);
        assert(self@.values =~= old(self)@.values.insert((version, resource_id), value@));
    }

    /// The index of the last committed batch.
    pub fn tip_index(&self) -> (r: u64)
        ensures
            r == self@.tip_index,
    {
        self.tip_index
    }

    /// The metadata of the last committed batch.
    pub fn tip_metadata(&self) -> (r: ChainBlockMetadata)
        ensures
            r == self@.tip_metadata,
    {
        self.tip_metadata
    }

    /// The oldest batch that is retained.
    pub fn retained_root(&self) -> (r: u64)
        ensures
            r == self@.retained_root,
    {
        self.retained_root
    }

    /// The metadata of batch `n`.
    pub fn batch(&self, n: u64) -> (r: Option<ChainBlockMetadata>)
        ensures
            match r {
                Some(m) => self@.batches.contains_pair(n, m),
                None => !self@.batches.contains_key(n),
            },
    {
        match self.batches.get(&BatchKey { index: n }) {
            Some(m) => Some(*m),
            None => None,
        }
    }

    /// The state root after batch `n`.
    pub fn root_at(&self, n: u64) -> (r: [u8; 32])
        ensures
            r == self@.root_at(n),
    {
        match self.state_roots.get(&BatchKey { index: n }) {
            Some(root) => *root,
            None => EMPTY_HASH,
        }
    }

    /// The latest versions of all resources.
    pub fn latest_pointers(&self) -> (r: Vec<(ResourceId, u64)>)
        ensures
            forall|i: int|
                #![trigger r@[i]]
                0 <= i < r@.len() ==> self@.latest.contains_pair(r@[i].0, r@[i].1),
            forall|id: ResourceId| #[trigger]
                self@.latest.contains_key(id) ==> exists|i: int|
                    0 <= i < r@.len() && (#[trigger] r@[i]).0 == id,
    {
        let n = self.latest.len();
        let mut r: Vec<(ResourceId, u64)> = Vec::new();
        let mut i: usize = 0;
        while i < n
            invariant
                i <= n,
                n == self.latest.size(),
                r@.len() == i,
                forall|j: int|
                    #![trigger r@[j]]
                    0 <= j < i ==> r@[j].0 == self.latest.nth(j) && self@.latest.contains_pair(
                        r@[j].0,
                        r@[j].1,
                    ),
            decreases n - i,
        {
            let p = self.latest.pair(i);
            r.push((*p.0, *p.1));
            i += 1;
        }
        proof {
            assert forall|id: ResourceId| #[trigger]
                self@.latest.contains_key(id) implies exists|k: int|
                0 <= k < r@.len() && (#[trigger] r@[k]).0 == id by {
                assert(self.latest@.contains_key(id));
                let k = choose|k: int| 0 <= k < n && self.latest.nth(k).model() == id;
                assert(r@[k].0 == id);
            }
        }
        r
    }

    /// The rollback pointers of batch `n`.
    pub fn rollback_pointers(&self, n: u64) -> (r: Vec<RollbackPointer>)
        ensures
            r@ == self@.rollbacks_of(n),
    {
        let mut r: Vec<RollbackPointer> = Vec::new();
        if let Some(list) = self.rollbacks.get(&BatchKey { index: n }) {
            let mut i: usize = 0;
            while i < list.len()
                invariant
                    i <= list@.len(),
                    r@ == list@.take(i as int),
                decreases list@.len() - i,
            {
                r.push(list[i]);
                assert(r@ =~= list@.take(i + 1));
                i += 1;
            }
            assert(r@ =~= list@);
        } else {
            assert(r@ =~= Seq::empty());
        }
        r
    }

    /// The value of a version of a resource.
    pub fn value(&self, version: u64, resource_id: &ResourceId) -> (r: Vec<u8>)
        ensures
            r@ == self@.value_of(version, *resource_id),
    {
        match self.values.get(&VersionKey { version, resource_id: *resource_id }) {
            Some(v) => copy_bytes(v.as_slice()),
            None => Vec::new(),
        }
    }
}

} // verus!
