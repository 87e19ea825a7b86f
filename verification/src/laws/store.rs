//! The store: what each operation does to each key, what a commit adds, what a listing holds.

use vstd::prelude::*;

use crate::bytes::has_prefix;
use crate::exit_index::{keys_view, ExitIndexer, ExitsForBundle};
use crate::indexer::NoIndex;
use crate::l1::{PermissionSpend, SettlementInfo};
use crate::laws::encoding::{
    lemma_order_is_by_first_difference, lemma_prefix_is_the_first_bytes, stands_before,
};
use crate::smt::key::Key;
use crate::storage::{
    apply_op, apply_ops, committed, is_listing, pairs_view, BatchOp, EntryKey, StateSpace,
    StoreState,
};

verus! {

/// An operation on entries leaves the tree's nodes alone, and one on a node the entries. A put
/// binds its key and no other; a deletion removes its key and no other; the deletion of a range
/// removes the keys of its namespace that do not stand before its start and stand before its end,
/// and no other. No operation by itself commits a batch.
pub proof fn lemma_op_by_key(state: StoreState, op: BatchOp, k: EntryKey, n: (Key, u64))
    ensures
        apply_op(state, op).commits == state.commits,
        op !is PutNode ==> apply_op(state, op).nodes == state.nodes,
        op matches BatchOp::PutNode { position, version, node } ==> {
            let after = apply_op(state, op);
            &&& after.entries == state.entries
            &&& after.nodes.contains_key(n) == (n == (position, version)
                || state.nodes.contains_key(n))
            &&& n == (position, version) ==> after.nodes[n] == node
            &&& n != (position, version) && state.nodes.contains_key(n) ==> after.nodes[n]
                == state.nodes[n]
        },
        op matches BatchOp::Put { ns, key, value } ==> {
            let after = apply_op(state, op).entries;
            &&& after.contains_key(k) == (k == (ns, key) || state.entries.contains_key(k))
            &&& k == (ns, key) ==> after[k] == value
            &&& k != (ns, key) && state.entries.contains_key(k) ==> after[k] == state.entries[k]
        },
        op matches BatchOp::Delete { ns, key } ==> {
            let after = apply_op(state, op).entries;
            &&& after.contains_key(k) == (k != (ns, key) && state.entries.contains_key(k))
            &&& after.contains_key(k) ==> after[k] == state.entries[k]
        },
        op matches BatchOp::DeleteRange { ns, start, end } ==> {
            let after = apply_op(state, op).entries;
            &&& after.contains_key(k) == (state.entries.contains_key(k) && !(k.0 == ns
                && !stands_before(k.1, start) && stands_before(k.1, end)))
            &&& after.contains_key(k) ==> after[k] == state.entries[k]
        },
{
    if let BatchOp::DeleteRange { ns, start, end } = op {
        lemma_order_is_by_first_difference(k.1, start);
        lemma_order_is_by_first_difference(k.1, end);
    }
}

/// Operations take effect one after another, in their order.
pub proof fn lemma_ops_in_order(state: StoreState, first: Seq<BatchOp>, rest: Seq<BatchOp>)
    ensures
        apply_ops(state, Seq::empty()) == state,
        apply_ops(state, first + rest) == apply_ops(apply_ops(state, first), rest),
        rest.len() == 1 ==> apply_ops(state, rest) == apply_op(state, rest[0]),
    decreases rest.len(),
{
    if rest.len() == 0 {
        assert(first + rest =~= first);
    } else {
        lemma_ops_in_order(state, first, rest.drop_last());
        assert((first + rest).drop_last() =~= first + rest.drop_last());
        if rest.len() == 1 {
            assert(rest.drop_last() =~= Seq::empty());
        }
    }
}

/// A commit does what its operations do, and adds one batch, made of them, to those committed.
pub proof fn lemma_commit_adds_one_batch(state: StoreState, ops: Seq<BatchOp>)
    ensures
        committed(state, ops).entries == apply_ops(state, ops).entries,
        committed(state, ops).nodes == apply_ops(state, ops).nodes,
        committed(state, ops).commits.len() == state.commits.len() + 1,
        committed(state, ops).commits.last() == ops,
        forall|i: int|
            0 <= i < state.commits.len() ==> #[trigger] committed(state, ops).commits[i]
                == state.commits[i],
{
}

/// A listing holds every entry of the namespace whose key begins with the prefix, and nothing
/// else, each once and with its value.
pub proof fn lemma_listing_by_key(
    entries: Seq<(Seq<u8>, Seq<u8>)>,
    state: StoreState,
    ns: StateSpace,
    prefix: Seq<u8>,
    key: Seq<u8>,
    value: Seq<u8>,
)
    requires
        is_listing(entries, state, ns, prefix),
    ensures
        entries.contains((key, value)) <==> {
            &&& state.entries.contains_key((ns, key))
            &&& state.entries[(ns, key)] == value
            &&& prefix.len() <= key.len()
            &&& forall|i: int| 0 <= i < prefix.len() ==> key[i] == #[trigger] prefix[i]
        },
        forall|i: int, j: int|
            #![trigger entries[i], entries[j]]
            0 <= i < j < entries.len() ==> entries[i].0 != entries[j].0,
{
    lemma_prefix_is_the_first_bytes(key, prefix);
    if entries.contains((key, value)) {
        let i = choose|i: int| 0 <= i < entries.len() && entries[i] == (key, value);
        assert(has_prefix(entries[i].0, prefix));
    }
    if state.entries.contains_key((ns, key)) && state.entries[(ns, key)] == value && has_prefix(
        key,
        prefix,
    ) {
        let i = choose|i: int| 0 <= i < entries.len() && (#[trigger] entries[i]).0 == key;
        assert(entries[i] == (key, value));
    }
}

/// Lists of vectors stand for lists of byte strings, place by place.
pub proof fn lemma_lists_by_place(pairs: Seq<(Vec<u8>, Vec<u8>)>, keys: Seq<Vec<u8>>)
    ensures
        pairs_view(pairs).len() == pairs.len(),
        forall|i: int|
            0 <= i < pairs.len() ==> #[trigger] pairs_view(pairs)[i] == (pairs[i].0@, pairs[i].1@),
        keys_view(keys).len() == keys.len(),
        forall|i: int| 0 <= i < keys.len() ==> #[trigger] keys_view(keys)[i] == keys[i]@,
{
}

/// The indexer that indexes nothing writes nothing.
pub proof fn lemma_no_index_writes_nothing(
    bundle: ExitsForBundle,
    settlement: SettlementInfo,
    spend: PermissionSpend,
    writes: Seq<BatchOp>,
)
    ensures
        NoIndex.exits_writes(bundle, settlement, writes) <==> writes.len() == 0,
        NoIndex.spend_writes(spend, writes) <==> writes.len() == 0,
{
    if writes.len() == 0 {
        assert(writes =~= Seq::empty());
    }
}

} // verus!
