//! The state root of a set of records.

use vstd::prelude::*;

use crate::hashing::Hasher;
use crate::smt::builder::{
    build_sorted, lemma_filter_all, lemma_filter_permuted, lemma_root_shape, lemma_tree_committed,
    lemma_tree_ignores_order, root_node, tree_writes, Leaf,
};
use crate::smt::key::Key;
use crate::smt::node::{HashedNode, Node, NodeHasher, ResourceId};
use crate::smt::sort::{all_distinct, distinct_resources, sort_leaves};
use crate::snapshot::container::{record_models, Record, RecordModel};
use crate::storage::{committed, OpBatch, StoreState, Tree, WriteBatch};

verus! {

/// What the tree commits to for one resource.
#[derive(Clone, Copy, Debug)]
pub struct Commitment {
    pub resource_id: ResourceId,
    pub value_hash: [u8; 32],
}

impl Commitment {
    pub fn new(resource_id: ResourceId, value_hash: [u8; 32]) -> (r: Commitment)
        ensures
            r@ == (resource_id, value_hash),
    {
        Commitment { resource_id, value_hash }
    }
}

impl View for Commitment {
    type V = Leaf;

    open spec fn view(&self) -> Leaf {
        (self.resource_id, self.value_hash)
    }
}

/// The leaves of a list of commitments.
pub open spec fn commitment_leaves(commitments: Seq<Commitment>) -> Seq<Leaf> {
    commitments.map_values(|c: Commitment| c@)
}

/// The leaves that the tree holds for `records`: one for each record with a value, with the hash
/// of the value. A record without a value stands for a resource that is absent.
pub open spec fn record_leaves<H: Hasher>(records: Seq<RecordModel>) -> Seq<Leaf> {
    records.filter(|r: RecordModel| r.1.len() > 0).map_values(
        |r: RecordModel| (r.0, H::digest(r.1)),
    )
}

/// No resource has two records.
pub open spec fn distinct_records(records: Seq<RecordModel>) -> bool {
    forall|i: int, j: int|
        #![trigger records[i], records[j]]
        0 <= i < j < records.len() ==> records[i].0 != records[j].0
}

/// The records that have a value.
pub open spec fn live_records(records: Seq<RecordModel>) -> Seq<RecordModel> {
    records.filter(|r: RecordModel| r.1.len() > 0)
}

/// No resource has two records with a value: no two leaves are for one resource.
pub open spec fn distinct_live_records(records: Seq<RecordModel>) -> bool {
    distinct_records(live_records(records))
}

/// The state root of `records`.
pub open spec fn state_root<H: NodeHasher>(records: Seq<RecordModel>) -> [u8; 32] {
    root_node::<H>(record_leaves::<H>(records)).hash_spec()
}

/// The last record adds a leaf if it has a value.
proof fn lemma_leaves_of_last<H: Hasher>(records: Seq<RecordModel>)
    requires
        records.len() > 0,
    ensures
        record_leaves::<H>(records) == if records.last().1.len() > 0 {
            record_leaves::<H>(records.drop_last()).push(
                (records.last().0, H::digest(records.last().1)),
            )
        } else {
            record_leaves::<H>(records.drop_last())
        },
{
    reveal(Seq::filter);
    let last = records.last();
    let fewer = record_leaves::<H>(records.drop_last());
    if last.1.len() > 0 {
        assert(record_leaves::<H>(records) =~= fewer.push((last.0, H::digest(last.1))));
    } else {
        assert(record_leaves::<H>(records) =~= fewer);
    }
}

/// Makes one commitment for each record that has a value.
pub fn commitments_from_records<H: Hasher>(records: &[Record]) -> (r: Vec<Commitment>)
    ensures
        commitment_leaves(r@) == record_leaves::<H>(record_models(records@)),
{
    let ghost models = record_models(records@);
    let mut r: Vec<Commitment> = Vec::new();
    let mut i: usize = 0;
    proof {
        reveal(Seq::filter);
        assert(models.take(0) =~= Seq::empty());
        assert(commitment_leaves(r@) =~= record_leaves::<H>(models.take(0)));
    }
    while i < records.len()
        invariant
            i <= records@.len(),
            models == record_models(records@),
            commitment_leaves(r@) == record_leaves::<H>(models.take(i as int)),
        decreases records@.len() - i,
    {
        let ghost had = r@;
        if records[i].value.len() > 0 {
            let value_hash = H::hash(records[i].value.as_slice());
            r.push(Commitment::new(records[i].resource_id, value_hash));
        }
        proof {
            let next = models.take(i + 1);
            assert(next.drop_last() =~= models.take(i as int));
            assert(next.last() == records@[i as int]@);
            lemma_leaves_of_last::<H>(next);
            if records@[i as int].value@.len() > 0 {
                assert(commitment_leaves(r@) =~= commitment_leaves(had).push(
                    (next.last().0, H::digest(next.last().1)),
                ));
            }
        }
        i += 1;
    }
    assert(models.take(i as int) =~= models);
    r
}

/// The leaves of `commitments`.
fn leaves_of(commitments: &Vec<Commitment>) -> (r: Vec<Leaf>)
    ensures
        r@ == commitment_leaves(commitments@),
{
    let ghost leaves = commitment_leaves(commitments@);
    let mut r: Vec<Leaf> = Vec::new();
    let mut i: usize = 0;
    while i < commitments.len()
        invariant
            i <= commitments@.len(),
            leaves == commitment_leaves(commitments@),
            r@ == leaves.take(i as int),
        decreases commitments@.len() - i,
    {
        r.push((commitments[i].resource_id, commitments[i].value_hash));
        assert(r@ =~= leaves.take(i + 1));
        i += 1;
    }
    assert(r@ =~= leaves);
    r
}

/// Whether no resource has two commitments.
pub fn has_distinct_commitments(commitments: &Vec<Commitment>) -> (r: bool)
    ensures
        r == distinct_resources(commitment_leaves(commitments@)),
{
    let leaves = leaves_of(commitments);
    all_distinct(&leaves)
}

/// Whether no resource has two records with a value. Records of foreign origin are to be tested
/// before their root is computed.
pub fn has_distinct_resources(records: &[Record]) -> (r: bool)
    ensures
        r == distinct_live_records(record_models(records@)),
{
    let ghost models = record_models(records@);
    let mut ids: Vec<Leaf> = Vec::new();
    let mut i: usize = 0;
    proof {
        reveal(Seq::filter);
        assert(models.take(0) =~= Seq::empty());
    }
    while i < records.len()
        invariant
            i <= records@.len(),
            models == record_models(records@),
            ids@.len() == live_records(models.take(i as int)).len(),
            forall|j: int|
                0 <= j < ids@.len() ==> (#[trigger] ids@[j]).0 == live_records(
                    models.take(i as int),
                )[j].0,
        decreases records@.len() - i,
    {
        proof {
            reveal(Seq::filter);
            let next = models.take(i + 1);
            assert(next.drop_last() =~= models.take(i as int));
            assert(next.last() == records@[i as int]@);
        }
        if records[i].value.len() > 0 {
            ids.push((records[i].resource_id, [0u8; 32]));
        }
        i += 1;
    }
    let r = all_distinct(&ids);
    proof {
        assert(models.take(i as int) =~= models);
        let live = live_records(models);
        if r {
            assert forall|a: int, b: int|
                #![trigger live[a], live[b]]
                0 <= a < b < live.len() implies live[a].0 != live[b].0 by {
                assert(ids@[a].0 != ids@[b].0);
            }
        }
        if distinct_records(live) {
            assert forall|a: int, b: int|
                #![trigger ids@[a], ids@[b]]
                0 <= a < b < ids@.len() implies ids@[a].0 != ids@[b].0 by {
                assert(live[a].0 != live[b].0);
            }
        }
    }
    r
}

/// Stores the tree over `commitments` in `wb` and returns the hash of its root.
pub fn commit_to_empty_tree<W: WriteBatch, H: NodeHasher>(
    wb: &mut W,
    commitments: Vec<Commitment>,
    version: u64,
) -> (r: [u8; 32])
    requires
        version > 0,
        distinct_resources(commitment_leaves(commitments@)),
    ensures
        r == root_node::<H>(commitment_leaves(commitments@)).hash_spec(),
        final(wb).ops() == old(wb).ops() + tree_writes::<H>(
            commitment_leaves(commitments@),
            version,
        ),
{
    let ghost leaves = commitment_leaves(commitments@);
    let given = leaves_of(&commitments);
    let sorted = sort_leaves(&given);
    proof {
        lemma_tree_ignores_order::<H>(sorted@, leaves, version);
    }
    build_sorted::<W, H, std::vec::IntoIter<Leaf>>(wb, version, sorted.into_iter())
}

/// Distinct live records have distinct leaves.
pub proof fn lemma_leaves_distinct<H: Hasher>(records: Seq<RecordModel>)
    ensures
        distinct_live_records(records) <==> distinct_resources(record_leaves::<H>(records)),
{
    let live = live_records(records);
    let leaves = record_leaves::<H>(records);
    assert(forall|i: int| 0 <= i < live.len() ==> (#[trigger] leaves[i]).0 == live[i].0);
    if distinct_resources(leaves) {
        assert forall|a: int, b: int|
            #![trigger live[a], live[b]]
            0 <= a < b < live.len() implies live[a].0 != live[b].0 by {
            assert(leaves[a].0 != leaves[b].0);
        }
    }
    if distinct_live_records(records) {
        assert forall|a: int, b: int|
            #![trigger leaves[a], leaves[b]]
            0 <= a < b < leaves.len() implies leaves[a].0 != leaves[b].0 by {
            assert(live[a].0 != live[b].0);
        }
    }
}

/// Stores the tree over `records` in `wb`, at version 1, and returns the hash of its root.
fn commit_records<W: WriteBatch, H: NodeHasher>(wb: &mut W, records: &[Record]) -> (r: [u8; 32])
    requires
        distinct_live_records(record_models(records@)),
    ensures
        r == state_root::<H>(record_models(records@)),
        final(wb).ops() == old(wb).ops() + tree_writes::<H>(
            record_leaves::<H>(record_models(records@)),
            1,
        ),
{
    let commitments = commitments_from_records::<H>(records);
    proof {
        lemma_leaves_distinct::<H>(record_models(records@));
    }
    commit_to_empty_tree::<W, H>(wb, commitments, 1)
}

/// Recomputes the state root of `records` in a store without tree nodes, hashing with the hash of
/// the store's tree. The version is fixed: the root depends on the records alone.
pub fn compute_root_from_records<S: Tree>(empty_store: &mut S, records: &[Record]) -> (r: [u8; 32])
    requires
        old(empty_store).state().nodes == Map::<(Key, u64), Node>::empty(),
        distinct_live_records(record_models(records@)),
    ensures
        r == state_root::<S::Hasher>(record_models(records@)),
        final(empty_store).state() == committed(
            old(empty_store).state(),
            tree_writes::<S::Hasher>(record_leaves::<S::Hasher>(record_models(records@)), 1),
        ),
{
    let mut wb = empty_store.write_batch();
    let root = commit_records::<S::Batch, S::Hasher>(&mut wb, records);
    assert(wb.ops() =~= tree_writes::<S::Hasher>(
        record_leaves::<S::Hasher>(record_models(records@)),
        1,
    ));
    empty_store.commit(wb);
    root
}

/// The state root of `records`, hashed with `H`, without keeping the tree.
pub fn root_of_records<H: NodeHasher>(records: &[Record]) -> (r: [u8; 32])
    requires
        distinct_live_records(record_models(records@)),
    ensures
        r == state_root::<H>(record_models(records@)),
{
    let mut scratch = OpBatch::new();
    commit_records::<OpBatch, H>(&mut scratch, records)
}

/// Permuted lists stay permuted when mapped.
proof fn lemma_map_permuted<A, B>(a: Seq<A>, b: Seq<A>, f: spec_fn(A) -> B)
    requires
        a.to_multiset() == b.to_multiset(),
    ensures
        a.map_values(f).to_multiset() == b.map_values(f).to_multiset(),
    decreases a.len(),
{
    broadcast use vstd::seq_lib::group_to_multiset_ensures;
    broadcast use vstd::multiset::group_multiset_axioms;

    assert(a.len() == a.to_multiset().len());
    assert(b.len() == b.to_multiset().len());
    if a.len() == 0 {
        assert(a.map_values(f) =~= b.map_values(f));
    } else {
        let n = a.len() - 1;
        let x = a[n];
        assert(a.contains(x));
        assert(a.to_multiset().count(x) > 0);
        assert(b.contains(x));
        let i = choose|i: int| 0 <= i < b.len() && b[i] == x;
        assert(a.remove(n).to_multiset() =~= b.remove(i).to_multiset());
        lemma_map_permuted(a.remove(n), b.remove(i), f);
        assert(a.remove(n).map_values(f) =~= a.map_values(f).remove(n));
        assert(b.remove(i).map_values(f) =~= b.map_values(f).remove(i));
        let y = f(x);
        assert(a.map_values(f)[n] == y && b.map_values(f)[i] == y);
        assert(a.map_values(f).contains(y) && b.map_values(f).contains(y));
        assert forall|z: B|
            a.map_values(f).to_multiset().count(z) == b.map_values(f).to_multiset().count(z) by {
            assert(a.map_values(f).to_multiset().count(y) > 0);
            assert(b.map_values(f).to_multiset().count(y) > 0);
            assert(a.map_values(f).remove(n).to_multiset().count(z) == b.map_values(f).remove(
                i,
            ).to_multiset().count(z));
        }
        assert(a.map_values(f).to_multiset() =~= b.map_values(f).to_multiset());
    }
}

/// The state root does not depend on the order of the records.
pub proof fn lemma_root_ignores_order<H: NodeHasher>(a: Seq<RecordModel>, b: Seq<RecordModel>)
    requires
        a.to_multiset() == b.to_multiset(),
    ensures
        state_root::<H>(a) == state_root::<H>(b),
{
    let live = |r: RecordModel| r.1.len() > 0;
    lemma_filter_permuted(a, b, live);
    lemma_map_permuted(
        a.filter(live),
        b.filter(live),
        |r: RecordModel| (r.0, H::digest(r.1)),
    );
    lemma_tree_ignores_order::<H>(record_leaves::<H>(a), record_leaves::<H>(b), 1);
}

/// Records without a value do not count: leaving them out keeps the state root.
pub proof fn lemma_root_ignores_empty<H: NodeHasher>(records: Seq<RecordModel>)
    ensures
        state_root::<H>(records.filter(|r: RecordModel| r.1.len() > 0)) == state_root::<H>(records),
{
    let live = |r: RecordModel| r.1.len() > 0;
    let rest = records.filter(live);
    assert forall|i: int| 0 <= i < rest.len() implies live(#[trigger] rest[i]) by {
        records.lemma_filter_pred(live, i);
    }
    lemma_filter_all(rest, live);
}

/// The root computed from records is the root of any commit of the same live records: at
/// whatever version the tree over them is committed, to whatever store, in whatever order they are
/// listed and with whatever empty records beside them, the root node stored has that hash.
pub proof fn lemma_root_is_that_of_a_commit<H: NodeHasher>(
    a: Seq<RecordModel>,
    b: Seq<RecordModel>,
    state: StoreState,
    version: u64,
)
    requires
        a.filter(|r: RecordModel| r.1.len() > 0).to_multiset() == b.filter(
            |r: RecordModel| r.1.len() > 0,
        ).to_multiset(),
    ensures
        state_root::<H>(a) == state_root::<H>(b),
        ({
            let after = committed(state, tree_writes::<H>(record_leaves::<H>(b), version));
            &&& after.nodes.contains_key((Key::root_spec(), version))
            &&& after.nodes[(Key::root_spec(), version)].hash_spec() == state_root::<H>(a)
        }),
{
    let live = |r: RecordModel| r.1.len() > 0;
    lemma_root_ignores_empty::<H>(a);
    lemma_root_ignores_empty::<H>(b);
    lemma_root_ignores_order::<H>(a.filter(live), b.filter(live));
    let w = tree_writes::<H>(record_leaves::<H>(b), version);
    lemma_tree_committed::<H>(state, record_leaves::<H>(b), version, w.len() - 1);
}

/// The root of records of which some have a value is the hash of a leaf or of a node over two
/// children. It is the root of an empty tree only if the hash function gives that very value.
pub proof fn lemma_live_root_is_hashed<H: NodeHasher>(records: Seq<RecordModel>, i: int)
    requires
        0 <= i < records.len(),
        records[i].1.len() > 0,
    ensures
        (exists|id: ResourceId, value_hash: [u8; 32]|
            state_root::<H>(records) == #[trigger] H::leaf_digest(id, value_hash)) || (exists|
            left: HashedNode,
            right: HashedNode,
        |
            state_root::<H>(records) == #[trigger] H::internal_digest(left, right)),
{
    let live = |r: RecordModel| r.1.len() > 0;
    records.lemma_filter_contains(live, i);
    let leaves = record_leaves::<H>(records);
    assert(leaves.len() > 0);
    lemma_root_shape::<H>(leaves);
}

} // verus!
