//! Key-value store and write batches: what a batch records and what committing it does.

use vstd::prelude::*;

use crate::assoc::{AssocMap, KeyEq};
use crate::bytes::{
    bytes_equal, copy_bytes, equal32, has_prefix, lemma_lex_irreflexive, lex_less, precedes,
    starts_with,
};
use crate::hashing::Sha256;
use crate::smt::key::Key;
use crate::smt::node::{Node, NodeHasher};

verus! {

/// A namespace of the store.
#[derive(Clone, Copy, Debug, PartialEq, Eq, Structural)]
pub enum StateSpace {
    /// Node metadata.
    Metadata,
    /// Secondary indexes.
    Index,
}

/// A key of the store: its namespace and its bytes.
pub type EntryKey = (StateSpace, Seq<u8>);

/// One operation of a write batch.
pub enum BatchOp {
    /// Binds a key to a value.
    Put { ns: StateSpace, key: Seq<u8>, value: Seq<u8> },
    /// Removes a key.
    Delete { ns: StateSpace, key: Seq<u8> },
    /// Removes every key of a namespace from `start` on and before `end`.
    DeleteRange { ns: StateSpace, start: Seq<u8>, end: Seq<u8> },
    /// Stores a tree node at a position and version.
    PutNode { position: Key, version: u64, node: Node },
}

/// Contents of a store, and the batches that were committed to it.
#[verifier::ext_equal]
pub struct StoreState {
    pub entries: Map<EntryKey, Seq<u8>>,
    pub nodes: Map<(Key, u64), Node>,
    /// The operations of each batch committed so far, the first batch first.
    pub commits: Seq<Seq<BatchOp>>,
}

/// `key` lies in the half-open range from `start` to `end`.
pub open spec fn in_range(key: Seq<u8>, start: Seq<u8>, end: Seq<u8>) -> bool {
    !lex_less(key, start) && lex_less(key, end)
}

/// What one operation of a batch does to the contents of a store.
pub open spec fn apply_op(state: StoreState, op: BatchOp) -> StoreState {
    match op {
        BatchOp::Put { ns, key, value } => StoreState {
            entries: state.entries.insert((ns, key), value),
            ..state
        },
        BatchOp::Delete { ns, key } => StoreState {
            entries: state.entries.remove((ns, key)),
            ..state
        },
        BatchOp::DeleteRange { ns, start, end } => StoreState {
            entries: state.entries.remove_keys(
                Set::new(|k: EntryKey| k.0 == ns && in_range(k.1, start, end)),
            ),
            ..state
        },
        BatchOp::PutNode { position, version, node } => StoreState {
            nodes: state.nodes.insert((position, version), node),
            ..state
        },
    }
}

/// What a sequence of operations does to the contents of a store, first to last.
pub open spec fn apply_ops(state: StoreState, ops: Seq<BatchOp>) -> StoreState
    decreases ops.len(),
{
    if ops.len() == 0 {
        state
    } else {
        apply_op(apply_ops(state, ops.drop_last()), ops.last())
    }
}

/// A store after a batch with operations `ops` was committed to it, and nothing else.
pub open spec fn committed(state: StoreState, ops: Seq<BatchOp>) -> StoreState {
    StoreState { commits: state.commits.push(ops), ..apply_ops(state, ops) }
}

/// Operations by themselves commit no batch.
proof fn lemma_apply_keeps_commits(state: StoreState, ops: Seq<BatchOp>)
    ensures
        apply_ops(state, ops).commits == state.commits,
    decreases ops.len(),
{
    if ops.len() > 0 {
        lemma_apply_keeps_commits(state, ops.drop_last());
    }
}

/// A list of operations that take effect together.
pub trait WriteBatch {
    /// The operations recorded so far, first to last. Unknown unless the batch says.
    open spec fn ops(&self) -> Seq<BatchOp> {
        vstd::pervasive::arbitrary()
    }

    /// Binds `key` to `value`.
    fn put(&mut self, ns: StateSpace, key: &[u8], value: &[u8])
        ensures
            final(self).ops() == old(self).ops().push(
                BatchOp::Put { ns, key: key@, value: value@ },
            ),
    ;

    /// Removes `key`.
    fn delete(&mut self, ns: StateSpace, key: &[u8])
        ensures
            final(self).ops() == old(self).ops().push(BatchOp::Delete { ns, key: key@ }),
    ;

    /// Removes all keys of `ns` within the half-open range from `start` to `end`. A range that
    /// holds no key changes nothing.
    fn delete_range(&mut self, ns: StateSpace, start: &[u8], end: &[u8])
        ensures
            final(self).ops() == old(self).ops().push(
                BatchOp::DeleteRange { ns, start: start@, end: end@ },
            ),
    ;

    /// Stores a tree node.
    fn put_node(&mut self, key: &Key, version: u64, node: &Node)
        ensures
            final(self).ops() == old(self).ops().push(
                BatchOp::PutNode { position: *key, version, node: *node },
            ),
    ;
}

/// `entries` lists, in some order and each once, the entries of `state` in namespace `ns` whose
/// keys begin with `prefix`.
pub open spec fn is_listing(
    entries: Seq<(Seq<u8>, Seq<u8>)>,
    state: StoreState,
    ns: StateSpace,
    prefix: Seq<u8>,
) -> bool {
    &&& forall|i: int|
        #![trigger entries[i]]
        0 <= i < entries.len() ==> has_prefix(entries[i].0, prefix) && state.entries.contains_pair(
            (ns, entries[i].0),
            entries[i].1,
        )
    &&& forall|i: int, j: int|
        #![trigger entries[i], entries[j]]
        0 <= i < j < entries.len() ==> entries[i].0 != entries[j].0
    &&& forall|key: Seq<u8>|
        #![trigger state.entries.contains_key((ns, key))]
        has_prefix(key, prefix) && state.entries.contains_key((ns, key)) ==> exists|i: int|
            0 <= i < entries.len() && (#[trigger] entries[i]).0 == key
}

/// The byte strings of a list of key-value pairs.
pub open spec fn pairs_view(pairs: Seq<(Vec<u8>, Vec<u8>)>) -> Seq<(Seq<u8>, Seq<u8>)> {
    Seq::new(pairs.len(), |i: int| (pairs[i].0@, pairs[i].1@))
}

/// A store of byte strings and tree nodes.
pub trait Store: Sized {
    /// The batches that this store commits.
    type Batch: WriteBatch;

    /// The committed contents and the batches committed. Unknown unless the store says.
    open spec fn state(&self) -> StoreState {
        vstd::pervasive::arbitrary()
    }

    /// The entries whose keys begin with `prefix`, in the order in which the store lists them.
    /// Unknown unless the store says.
    open spec fn listing(&self, ns: StateSpace, prefix: Seq<u8>) -> Seq<(Seq<u8>, Seq<u8>)> {
        vstd::pervasive::arbitrary()
    }

    /// Starts an empty batch.
    fn write_batch(&self) -> (wb: Self::Batch)
        ensures
            wb.ops() == Seq::<BatchOp>::empty(),
    ;

    /// Applies a batch, all of it at once.
    fn commit(&mut self, wb: Self::Batch)
        ensures
            final(self).state() == committed(old(self).state(), wb.ops()),
    ;

    /// Reads the value of a key.
    fn get(&self, ns: StateSpace, key: &[u8]) -> (r: Option<Vec<u8>>)
        ensures
            match r {
                Some(v) => self.state().entries.contains_pair((ns, key@), v@),
                None => !self.state().entries.contains_key((ns, key@)),
            },
    ;

    /// Lists the entries whose keys begin with `prefix`.
    fn prefix_iter(&self, ns: StateSpace, prefix: &[u8]) -> (r: Vec<(Vec<u8>, Vec<u8>)>)
        ensures
            pairs_view(r@) == self.listing(ns, prefix@),
            is_listing(self.listing(ns, prefix@), self.state(), ns, prefix@),
    ;
}

/// A store whose tree is hashed with `Hasher`.
pub trait Tree: Store {
    type Hasher: NodeHasher;
}

/// An operation as an [`OpBatch`] keeps it.
#[derive(Debug)]
pub enum RecordedOp {
    Put { ns: StateSpace, key: Vec<u8>, value: Vec<u8> },
    Delete { ns: StateSpace, key: Vec<u8> },
    DeleteRange { ns: StateSpace, start: Vec<u8>, end: Vec<u8> },
    PutNode { position: Key, version: u64, node: Node },
}

impl View for RecordedOp {
    type V = BatchOp;

    open spec fn view(&self) -> BatchOp {
        match self {
            RecordedOp::Put { ns, key, value } => BatchOp::Put {
                ns: *ns,
                key: key@,
                value: value@,
            },
            RecordedOp::Delete { ns, key } => BatchOp::Delete { ns: *ns, key: key@ },
            RecordedOp::DeleteRange { ns, start, end } => BatchOp::DeleteRange {
                ns: *ns,
                start: start@,
                end: end@,
            },
            RecordedOp::PutNode { position, version, node } => BatchOp::PutNode {
                position: *position,
                version: *version,
                node: *node,
            },
        }
    }
}

/// A batch that keeps its operations in memory, for a store to replay.
#[derive(Debug)]
pub struct OpBatch {
    pub recorded: Vec<RecordedOp>,
}

impl OpBatch {
    /// An empty batch.
    pub fn new() -> (r: OpBatch)
        ensures
            r.ops() == Seq::<BatchOp>::empty(),
    {
        let r = OpBatch { recorded: Vec::new() };
        assert(r.ops() =~= Seq::<BatchOp>::empty());
        r
    }

    fn record(&mut self, op: RecordedOp)
        ensures
            final(self).ops() == old(self).ops().push(op@),
    {
        self.recorded.push(op);
        assert(self.ops() =~= old(self).ops().push(op@));
    }
}

impl WriteBatch for OpBatch {
    open spec fn ops(&self) -> Seq<BatchOp> {
        self.recorded@.map_values(|op: RecordedOp| op@)
    }

    fn put(&mut self, ns: StateSpace, key: &[u8], value: &[u8]) {
        self.record(RecordedOp::Put { ns, key: copy_bytes(key), value: copy_bytes(value) });
    }

    fn delete(&mut self, ns: StateSpace, key: &[u8]) {
        self.record(RecordedOp::Delete { ns, key: copy_bytes(key) });
    }

    fn delete_range(&mut self, ns: StateSpace, start: &[u8], end: &[u8]) {
        self.record(
            RecordedOp::DeleteRange { ns, start: copy_bytes(start), end: copy_bytes(end) },
        );
    }

    fn put_node(&mut self, key: &Key, version: u64, node: &Node) {
        self.record(RecordedOp::PutNode { position: *key, version, node: *node });
    }
}

/// A namespace and the bytes of a key.
struct SpaceKey {
    ns: StateSpace,
    bytes: Vec<u8>,
}

impl KeyEq for SpaceKey {
    type Model = EntryKey;

    closed spec fn model(&self) -> EntryKey {
        (self.ns, self.bytes@)
    }

    fn same(&self, other: &SpaceKey) -> (r: bool) {
        self.ns == other.ns && bytes_equal(self.bytes.as_slice(), other.bytes.as_slice())
    }
}

/// A position and a version.
struct NodeKey {
    key: Key,
    version: u64,
}

impl KeyEq for NodeKey {
    type Model = (Key, u64);

    closed spec fn model(&self) -> (Key, u64) {
        (self.key, self.version)
    }

    fn same(&self, other: &NodeKey) -> (r: bool) {
        self.version == other.version && self.key.level == other.key.level && equal32(
            &self.key.path,
            &other.key.path,
        )
    }
}

/// A store that keeps its contents in memory.
pub struct MemoryStore {
    entries: AssocMap<SpaceKey, Vec<u8>>,
    nodes: AssocMap<NodeKey, Node>,
    commits: Ghost<Seq<Seq<BatchOp>>>,
}

/// The entries of `state` that a walk over `keys` lists for a namespace and a prefix.
spec fn listed_entries(
    keys: Seq<EntryKey>,
    state: StoreState,
    ns: StateSpace,
    prefix: Seq<u8>,
) -> Seq<(Seq<u8>, Seq<u8>)> {
    keys.filter(|k: EntryKey| k.0 == ns && has_prefix(k.1, prefix)).map_values(
        |k: EntryKey| (k.1, state.entries[k]),
    )
}

/// The last key of a walk adds its entry if it is in the namespace and has the prefix.
proof fn lemma_listed_last(
    keys: Seq<EntryKey>,
    state: StoreState,
    ns: StateSpace,
    prefix: Seq<u8>,
)
    requires
        keys.len() > 0,
    ensures
        ({
            let k = keys.last();
            let fewer = listed_entries(keys.drop_last(), state, ns, prefix);
            listed_entries(keys, state, ns, prefix) == if k.0 == ns && has_prefix(k.1, prefix) {
                fewer.push((k.1, state.entries[k]))
            } else {
                fewer
            }
        }),
{
    reveal(Seq::filter);
    let k = keys.last();
    let fewer = listed_entries(keys.drop_last(), state, ns, prefix);
    if k.0 == ns && has_prefix(k.1, prefix) {
        assert(listed_entries(keys, state, ns, prefix) =~= fewer.push((k.1, state.entries[k])));
    }
}

/// What a walk over distinct keys of `state` lists: entries with the prefix, each once, and one
/// for each key walked over that is in the namespace and has the prefix.
proof fn lemma_listed_entries(
    keys: Seq<EntryKey>,
    state: StoreState,
    ns: StateSpace,
    prefix: Seq<u8>,
)
    requires
        keys.no_duplicates(),
        forall|i: int| 0 <= i < keys.len() ==> state.entries.contains_key(#[trigger] keys[i]),
    ensures
        ({
            let listed = listed_entries(keys, state, ns, prefix);
            &&& forall|i: int|
                #![trigger listed[i]]
                0 <= i < listed.len() ==> {
                    &&& has_prefix(listed[i].0, prefix)
                    &&& state.entries.contains_pair((ns, listed[i].0), listed[i].1)
                    &&& keys.contains((ns, listed[i].0))
                }
            &&& forall|i: int, j: int|
                #![trigger listed[i], listed[j]]
                0 <= i < j < listed.len() ==> listed[i].0 != listed[j].0
            &&& forall|key: Seq<u8>|
                has_prefix(key, prefix) && #[trigger] keys.contains((ns, key)) ==> exists|i: int|
                    0 <= i < listed.len() && (#[trigger] listed[i]).0 == key
        }),
    decreases keys.len(),
{
    let listed = listed_entries(keys, state, ns, prefix);
    reveal(Seq::filter);
    if keys.len() > 0 {
        let fewer = keys.drop_last();
        let last = keys.last();
        let before = listed_entries(fewer, state, ns, prefix);
        assert(state.entries.contains_key(keys[keys.len() - 1]));
        lemma_listed_entries(fewer, state, ns, prefix);
        lemma_listed_last(keys, state, ns, prefix);
        assert forall|k: EntryKey| #[trigger] fewer.contains(k) implies keys.contains(k) && k
            != last by {
            let i = choose|i: int| 0 <= i < fewer.len() && fewer[i] == k;
            assert(keys[i] == k);
        }
        assert(keys.contains(last)) by {
            assert(keys[keys.len() - 1] == last);
        }
        assert forall|i: int| #![trigger listed[i]] 0 <= i < listed.len() implies has_prefix(
            listed[i].0,
            prefix,
        ) && state.entries.contains_pair((ns, listed[i].0), listed[i].1) && keys.contains(
            (ns, listed[i].0),
        ) by {
            if i < before.len() {
                assert(listed[i] == before[i]);
                assert(fewer.contains((ns, before[i].0)));
            }
        }
        assert forall|i: int, j: int|
            #![trigger listed[i], listed[j]]
            0 <= i < j < listed.len() implies listed[i].0 != listed[j].0 by {
            assert(listed[i] == before[i]);
            if j < before.len() {
                assert(listed[j] == before[j]);
            } else {
                assert(fewer.contains((ns, before[i].0)));
            }
        }
        assert forall|key: Seq<u8>|
            has_prefix(key, prefix) && #[trigger] keys.contains((ns, key)) implies exists|i: int|
            0 <= i < listed.len() && (#[trigger] listed[i]).0 == key by {
            if last == (ns, key) {
                assert(listed[before.len() as int].0 == key);
            } else {
                let m = choose|m: int| 0 <= m < keys.len() && keys[m] == (ns, key);
                assert(fewer[m] == (ns, key));
                assert(fewer.contains((ns, key)));
                let i = choose|i: int| 0 <= i < before.len() && (#[trigger] before[i]).0 == key;
                assert(listed[i].0 == key);
            }
        }
    }
}

impl MemoryStore {
    /// The keys of the entries, in the order in which they are kept.
    spec fn kept_keys(&self) -> Seq<EntryKey> {
        Seq::new(self.entries.size(), |i: int| self.entries.nth(i).model())
    }

    /// An empty store.
    pub fn new() -> (r: MemoryStore)
        ensures
            r.state().entries == Map::<EntryKey, Seq<u8>>::empty(),
            r.state().nodes == Map::<(Key, u64), Node>::empty(),
            r.state().commits == Seq::<Seq<BatchOp>>::empty(),
    {
        let r = MemoryStore {
            entries: AssocMap::new(),
            nodes: AssocMap::new(),
            commits: Ghost(Seq::empty()),
        };
        assert(r.state().entries =~= Map::<EntryKey, Seq<u8>>::empty());
        r
    }

    /// Reads the tree node stored at a position and version.
    pub fn get_node(&self, key: &Key, version: u64) -> (r: Option<Node>)
        ensures
            match r {
                Some(n) => self.state().nodes.contains_pair((*key, version), n),
                None => !self.state().nodes.contains_key((*key, version)),
            },
    {
        let k = NodeKey { key: *key, version };
        assert(k.model() == (*key, version));
        match self.nodes.get(&k) {
            Some(n) => Some(*n),
            None => None,
        }
    }

    fn put_entry(&mut self, ns: StateSpace, key: &Vec<u8>, value: &Vec<u8>)
        ensures
            final(self).state() == apply_op(
                old(self).state(),
                BatchOp::Put { ns, key: key@, value: value@ },
            ),
    {
        let k = SpaceKey { ns, bytes: copy_bytes(key.as_slice()) };
        let v = copy_bytes(value.as_slice());
        assert(k.model() == (ns, key@));
        self.entries.insert(k, v);
        assert(self.state().entries =~= old(self).state().entries.insert((ns, key@), value@));
    }

    fn delete_entry(&mut self, ns: StateSpace, key: &Vec<u8>)
        ensures
            final(self).state() == apply_op(old(self).state(), BatchOp::Delete { ns, key: key@ }),
    {
        let k = SpaceKey { ns, bytes: copy_bytes(key.as_slice()) };
        assert(k.model() == (ns, key@));
        let _ = self.entries.remove(&k);
        assert(self.state().entries =~= old(self).state().entries.remove((ns, key@)));
    }

    /// Copies the keys of `ns` that lie in a range.
    fn keys_in_range(&self, ns: StateSpace, start: &Vec<u8>, end: &Vec<u8>) -> (r: Vec<Vec<u8>>)
        ensures
            forall|k: Seq<u8>|
                #![trigger self.state().entries.contains_key((ns, k))]
                self.state().entries.contains_key((ns, k)) && in_range(k, start@, end@)
                    ==> exists|j: int| 0 <= j < r@.len() && (#[trigger] r@[j])@ == k,
            forall|j: int| 0 <= j < r@.len() ==> in_range((#[trigger] r@[j])@, start@, end@),
    {
        let n = self.entries.len();
        let mut r: Vec<Vec<u8>> = Vec::new();
        let mut i: usize = 0;
        while i < n
            invariant
                i <= n,
                n == self.entries.size(),
                forall|j: int| 0 <= j < r@.len() ==> in_range((#[trigger] r@[j])@, start@, end@),
                forall|a: int|
                    #![trigger self.entries.nth(a)]
                    0 <= a < i && self.entries.nth(a).ns == ns && in_range(
                        self.entries.nth(a).bytes@,
                        start@,
                        end@,
                    ) ==> exists|j: int|
                        0 <= j < r@.len() && (#[trigger] r@[j])@ == self.entries.nth(a).bytes@,
            decreases n - i,
        {
            let ghost had = r@;
            let p = self.entries.pair(i);
            let k = p.0;
            if k.ns == ns && !precedes(k.bytes.as_slice(), start.as_slice()) && precedes(
                k.bytes.as_slice(),
                end.as_slice(),
            ) {
                r.push(copy_bytes(k.bytes.as_slice()));
                assert(r@[had.len() as int]@ == k.bytes@);
            }
            proof {
                assert forall|a: int|
                    #![trigger self.entries.nth(a)]
                    0 <= a < i + 1 && self.entries.nth(a).ns == ns && in_range(
                        self.entries.nth(a).bytes@,
                        start@,
                        end@,
                    ) implies exists|j: int|
                    0 <= j < r@.len() && (#[trigger] r@[j])@ == self.entries.nth(a).bytes@ by {
                    if a < i {
                        let j = choose|j: int|
                            0 <= j < had.len() && (#[trigger] had[j])@ == self.entries.nth(a).bytes@;
                        assert(r@[j]@ == self.entries.nth(a).bytes@);
                    }
                }
            }
            i += 1;
        }
        proof {
            assert forall|k: Seq<u8>|
                #![trigger self.state().entries.contains_key((ns, k))]
                self.state().entries.contains_key((ns, k)) && in_range(
                    k,
                    start@,
                    end@,
                ) implies exists|j: int| 0 <= j < r@.len() && (#[trigger] r@[j])@ == k by {
                assert(self.entries@.contains_key((ns, k)));
                let a = choose|a: int| 0 <= a < n && self.entries.nth(a).model() == (ns, k);
                assert(self.entries.nth(a).ns == ns);
            }
        }
        r
    }

    fn delete_entries(&mut self, ns: StateSpace, start: &Vec<u8>, end: &Vec<u8>)
        ensures
            final(self).state() == apply_op(
                old(self).state(),
                BatchOp::DeleteRange { ns, start: start@, end: end@ },
            ),
    {
        let ghost gone = Set::new(|k: EntryKey| k.0 == ns && in_range(k.1, start@, end@));
        let keys = self.keys_in_range(ns, start, end);
        let mut i: usize = 0;
        while i < keys.len()
            invariant
                i <= keys@.len(),
                gone == Set::new(|k: EntryKey| k.0 == ns && in_range(k.1, start@, end@)),
                forall|j: int|
                    0 <= j < keys@.len() ==> in_range((#[trigger] keys@[j])@, start@, end@),
                self.state().nodes == old(self).state().nodes,
                self.state().commits == old(self).state().commits,
                self.state().entries.remove_keys(gone) == old(self).state().entries.remove_keys(
                    gone,
                ),
                forall|k: EntryKey|
                    #![trigger self.state().entries.contains_key(k)]
                    self.state().entries.contains_key(k) ==> old(self).state().entries.contains_key(
                        k,
                    ),
                forall|j: int|
                    #![trigger keys@[j]]
                    0 <= j < i ==> !self.state().entries.contains_key((ns, keys@[j]@)),
            decreases keys@.len() - i,
        {
            let ghost now = self.state();
            self.delete_entry(ns, &keys[i]);
            proof {
                assert(gone.contains((ns, keys@[i as int]@)));
                assert(self.state().entries.remove_keys(gone) =~= now.entries.remove_keys(gone));
            }
            i += 1;
        }
        proof {
            assert forall|k: EntryKey| self.state().entries.contains_key(k) implies !gone.contains(
                k,
            ) by {
                if gone.contains(k) {
                    assert(old(self).state().entries.contains_key((ns, k.1)));
                    let j = choose|j: int| 0 <= j < keys@.len() && (#[trigger] keys@[j])@ == k.1;
                    assert(!self.state().entries.contains_key((ns, keys@[j]@)));
                }
            }
            assert(self.state().entries =~= old(self).state().entries.remove_keys(gone));
        }
    }

    fn insert_node(&mut self, key: Key, version: u64, node: Node)
        ensures
            final(self).state() == apply_op(
                old(self).state(),
                BatchOp::PutNode { position: key, version, node },
            ),
    {
        let k = NodeKey { key, version };
        assert(k.model() == (key, version));
        self.nodes.insert(k, node);
    }
}

impl Store for MemoryStore {
    type Batch = OpBatch;

    closed spec fn state(&self) -> StoreState {
        StoreState {
            entries: self.entries@.map_values(|v: Vec<u8>| v@),
            nodes: self.nodes@,
            commits: self.commits@,
        }
    }

    /// The entries in the order in which their keys are kept.
    closed spec fn listing(&self, ns: StateSpace, prefix: Seq<u8>) -> Seq<(Seq<u8>, Seq<u8>)> {
        listed_entries(self.kept_keys(), self.state(), ns, prefix)
    }

    fn write_batch(&self) -> (wb: OpBatch) {
        OpBatch::new()
    }

    fn commit(&mut self, wb: OpBatch) {
        let mut i: usize = 0;
        assert(wb.ops().take(0) =~= Seq::<BatchOp>::empty());
        while i < wb.recorded.len()
            invariant
                i <= wb.recorded@.len(),
                wb.ops().len() == wb.recorded@.len(),
                self.state() == apply_ops(old(self).state(), wb.ops().take(i as int)),
            decreases wb.recorded@.len() - i,
        {
            proof {
                let t = wb.ops().take(i + 1);
                assert(t.drop_last() =~= wb.ops().take(i as int));
                assert(t.last() == wb.recorded@[i as int]@);
            }
            match &wb.recorded[i] {
                RecordedOp::Put { ns, key, value } => {
                    self.put_entry(*ns, key, value);
                },
                RecordedOp::Delete { ns, key } => {
                    self.delete_entry(*ns, key);
                },
                RecordedOp::DeleteRange { ns, start, end } => {
                    self.delete_entries(*ns, start, end);
                },
                RecordedOp::PutNode { position, version, node } => {
                    self.insert_node(*position, *version, *node);
                },
            }
            i += 1;
        }
        assert(wb.ops().take(i as int) =~= wb.ops());
        proof {
            lemma_apply_keeps_commits(old(self).state(), wb.ops());
        }
        self.commits = Ghost(self.commits@.push(wb.ops()));
    }

    fn get(&self, ns: StateSpace, key: &[u8]) -> (r: Option<Vec<u8>>) {
        let k = SpaceKey { ns, bytes: copy_bytes(key) };
        assert(k.model() == (ns, key@));
        match self.entries.get(&k) {
            Some(v) => Some(copy_bytes(v.as_slice())),
            None => None,
        }
    }

    fn prefix_iter(&self, ns: StateSpace, prefix: &[u8]) -> (r: Vec<(Vec<u8>, Vec<u8>)>) {
        let n = self.entries.len();
        let ghost keys = self.kept_keys();
        let ghost state = self.state();
        let mut r: Vec<(Vec<u8>, Vec<u8>)> = Vec::new();
        let mut i: usize = 0;
        proof {
            reveal(Seq::filter);
            assert(keys.take(0) =~= Seq::empty());
            assert(pairs_view(r@) =~= listed_entries(keys.take(0), state, ns, prefix@));
        }
        while i < n
            invariant
                i <= n,
                n == self.entries.size(),
                keys == self.kept_keys(),
                state == self.state(),
                pairs_view(r@) == listed_entries(keys.take(i as int), state, ns, prefix@),
                forall|j: int| 0 <= j < i ==> state.entries.contains_key(#[trigger] keys[j]),
            decreases n - i,
        {
            let ghost had = r@;
            let p = self.entries.pair(i);
            let k = p.0;
            proof {
                let next = keys.take(i + 1);
                assert(next.drop_last() =~= keys.take(i as int));
                assert(k.model() == (k.ns, k.bytes@));
                assert(keys[i as int] == k.model());
                assert(next.last() == keys[i as int]);
                assert(state.entries.contains_pair(k.model(), p.1@));
                lemma_listed_last(next, state, ns, prefix@);
            }
            if k.ns == ns && starts_with(k.bytes.as_slice(), prefix) {
                r.push((copy_bytes(k.bytes.as_slice()), copy_bytes(p.1.as_slice())));
                assert(pairs_view(r@) =~= pairs_view(had).push((k.bytes@, p.1@)));
            }
            i += 1;
        }
        proof {
            assert(keys.take(i as int) =~= keys);
            assert forall|a: int, b: int|
                0 <= a < keys.len() && 0 <= b < keys.len() && a != b implies keys[a]
                != keys[b] by {
                if a < b {
                    assert(self.entries.nth(a).model() != self.entries.nth(b).model());
                } else {
                    assert(self.entries.nth(b).model() != self.entries.nth(a).model());
                }
            }
            lemma_listed_entries(keys, state, ns, prefix@);
            assert forall|key: Seq<u8>| #[trigger]
                state.entries.contains_key((ns, key)) implies keys.contains((ns, key)) by {
                assert(self.entries@.contains_key((ns, key)));
                let a = choose|a: int| 0 <= a < n && self.entries.nth(a).model() == (ns, key);
                assert(keys[a] == (ns, key));
            }
        }
        r
    }
}

impl Tree for MemoryStore {
    type Hasher = Sha256;
}

/// A range deletion takes the keys from its start on and before its end, and no others: its end
/// stays, and so does every other namespace.
pub proof fn lemma_delete_range(
    state: StoreState,
    ns: StateSpace,
    start: Seq<u8>,
    end: Seq<u8>,
    other: StateSpace,
    key: Seq<u8>,
)
    ensures
        ({
            let after = apply_op(state, BatchOp::DeleteRange { ns, start, end });
            if other == ns && in_range(key, start, end) {
                !after.entries.contains_key((other, key))
            } else {
                &&& after.entries.contains_key((other, key)) == state.entries.contains_key(
                    (other, key),
                )
                &&& state.entries.contains_key((other, key)) ==> after.entries[(other, key)]
                    == state.entries[(other, key)]
            }
        }),
        lex_less(start, end) ==> in_range(start, start, end),
        !in_range(end, start, end),
{
    lemma_lex_irreflexive(start);
    lemma_lex_irreflexive(end);
}

/// Deleting a range that holds no key changes nothing.
pub proof fn lemma_delete_absent_range(
    state: StoreState,
    ns: StateSpace,
    start: Seq<u8>,
    end: Seq<u8>,
)
    requires
        forall|key: Seq<u8>|
            #![trigger state.entries.contains_key((ns, key))]
            state.entries.contains_key((ns, key)) ==> !in_range(key, start, end),
    ensures
        apply_op(state, BatchOp::DeleteRange { ns, start, end }) == state,
{
    let after = apply_op(state, BatchOp::DeleteRange { ns, start, end });
    assert forall|k: EntryKey| after.entries.contains_key(k) == state.entries.contains_key(k) by {
        if state.entries.contains_key(k) && k.0 == ns {
            assert(state.entries.contains_key((ns, k.1)));
        }
    }
    assert(after =~= state);
}

/// Of the operations of a batch the later ones prevail: a key that is put last has the value that
/// was put, and a key that is deleted last is gone.
pub proof fn lemma_last_op_prevails(
    state: StoreState,
    ops: Seq<BatchOp>,
    ns: StateSpace,
    key: Seq<u8>,
    value: Seq<u8>,
)
    ensures
        apply_ops(state, ops.push(BatchOp::Put { ns, key, value })).entries.contains_pair(
            (ns, key),
            value,
        ),
        !apply_ops(state, ops.push(BatchOp::Delete { ns, key })).entries.contains_key((ns, key)),
{
    assert(ops.push(BatchOp::Put { ns, key, value }).drop_last() =~= ops);
    assert(ops.push(BatchOp::Delete { ns, key }).drop_last() =~= ops);
}

} // verus!
