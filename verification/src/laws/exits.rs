//! The index of permission outputs: what each event does to the store and to the registry, in
//! terms of the event's own fields.

use vstd::prelude::*;

use crate::assoc::KeyEq;
use crate::bytes::lemma_be_bytes_len;
use crate::exit_index::{
    changed, event_handled, first_key, is_perm_out_key, lemma_be4, lemma_first_key, paired,
    perm_out_bytes, settled, spend_applied, spend_ops, tracked_outputs, undecodable_outpoints,
    undecodable_roots, ExitEvent, ExitIndexer, ExitsForBundle, RegistryChange, PERM_OUT_PREFIX,
};
use crate::l1::{PermissionSpend, SettlementInfo, TransactionOutpoint};
use crate::laws::store::lemma_listing_by_key;
use crate::storage::{apply_ops, committed, BatchOp, StateSpace, StoreState};

verus! {

/// `key` is the bytes `perm_out`, the 32 bytes of `tx_id`, and `index` in four bytes, most
/// significant first.
pub open spec fn is_key_of(key: Seq<u8>, tx_id: [u8; 32], index: u32) -> bool {
    &&& key.len() == 44
    &&& key.subrange(0, 8) == seq![0x70u8, 0x65, 0x72, 0x6d, 0x5f, 0x6f, 0x75, 0x74]
    &&& key.subrange(8, 40) == tx_id@
    &&& key[40] == index / 0x100_0000
    &&& key[41] == index / 0x1_0000 % 256
    &&& key[42] == index / 256 % 256
    &&& key[43] == index % 256
}

/// The key of an output is made of its fields, and no other key is its key.
pub proof fn lemma_key_by_byte(key: Seq<u8>, tx_id: [u8; 32], index: u32)
    ensures
        is_key_of(key, tx_id, index) <==> key == perm_out_bytes(
            TransactionOutpoint { transaction_id: tx_id, index },
        ),
{
    let o = TransactionOutpoint { transaction_id: tx_id, index };
    let k = perm_out_bytes(o);
    lemma_be4(index as nat);
    lemma_be_bytes_len(index as nat, 4);
    assert(k.subrange(0, 8) =~= seq![0x70u8, 0x65, 0x72, 0x6d, 0x5f, 0x6f, 0x75, 0x74]);
    assert(k.subrange(8, 40) =~= tx_id@);
    assert(is_key_of(k, tx_id, index));
    if is_key_of(key, tx_id, index) {
        assert(key =~= key.subrange(0, 8) + key.subrange(8, 40) + seq![
            key[40],
            key[41],
            key[42],
            key[43],
        ]);
        assert(k =~= k.subrange(0, 8) + k.subrange(8, 40) + seq![k[40], k[41], k[42], k[43]]);
        assert(key == k);
    }
}

/// One more batch was committed: `batch`. The batches before it are as they were.
pub open spec fn one_more_batch(
    before: StoreState,
    after: StoreState,
    batch: Seq<BatchOp>,
) -> bool {
    after.commits.len() == before.commits.len() + 1 && after.commits.drop_last() == before.commits
        && after.commits.last() == batch
}

proof fn lemma_committed_batch(before: StoreState, batch: Seq<BatchOp>)
    ensures
        one_more_batch(before, committed(before, batch), batch),
{
    assert(committed(before, batch).commits.drop_last() =~= before.commits);
}

/// The last operation of a batch put `value` under `key` of the metadata.
proof fn lemma_put_last(before: StoreState, ops: Seq<BatchOp>, key: Seq<u8>, value: Seq<u8>)
    ensures
        committed(
            before,
            ops.push(BatchOp::Put { ns: StateSpace::Metadata, key, value }),
        ).entries == apply_ops(before, ops).entries.insert((StateSpace::Metadata, key), value),
{
    assert(ops.push(BatchOp::Put { ns: StateSpace::Metadata, key, value }).drop_last() =~= ops);
}

/// What a bundle's commit comes to: the registry maps output 1 of the settlement's transaction to
/// the bundle's root and is otherwise as it was; the store holds the root under the key of that
/// output; and one more batch was committed, of the indexer's writes for the bundle and the put
/// of the root, and no other operation.
pub open spec fn bundle_tracked<X: ExitIndexer>(
    indexer: X,
    bundle: ExitsForBundle,
    settlement: SettlementInfo,
    before: StoreState,
    after: StoreState,
    registry: Map<TransactionOutpoint, [u8; 32]>,
    updated: Map<TransactionOutpoint, [u8; 32]>,
) -> bool {
    let output = TransactionOutpoint { transaction_id: settlement.tx_id, index: 1 };
    &&& updated == registry.insert(output, bundle.permission_spk_hash)
    &&& exists|key: Seq<u8>, writes: Seq<BatchOp>|
        {
            &&& #[trigger] is_key_of(key, settlement.tx_id, 1)
            &&& #[trigger] indexer.exits_writes(bundle, settlement, writes)
            &&& after.entries.contains_pair(
                (StateSpace::Metadata, key),
                bundle.permission_spk_hash@,
            )
            &&& one_more_batch(
                before,
                after,
                writes.push(
                    BatchOp::Put {
                        ns: StateSpace::Metadata,
                        key,
                        value: bundle.permission_spk_hash@,
                    },
                ),
            )
        }
}

/// A bundle that is committed with a settlement is tracked under the settlement's transaction.
pub proof fn lemma_pairing_tracks_bundle<X: ExitIndexer>(
    indexer: X,
    bundle: ExitsForBundle,
    settlement: SettlementInfo,
    before: StoreState,
    after: StoreState,
    registry: Map<TransactionOutpoint, [u8; 32]>,
    updated: Map<TransactionOutpoint, [u8; 32]>,
)
    requires
        paired(indexer, bundle, settlement, before, after, registry, updated),
    ensures
        bundle_tracked(indexer, bundle, settlement, before, after, registry, updated),
{
    let output = TransactionOutpoint { transaction_id: settlement.tx_id, index: 1 };
    let key = perm_out_bytes(output);
    let put = BatchOp::Put {
        ns: StateSpace::Metadata,
        key,
        value: bundle.permission_spk_hash@,
    };
    let writes = choose|writes: Seq<BatchOp>| #[trigger]
        indexer.exits_writes(bundle, settlement, writes) && after == committed(
            before,
            writes.push(put),
        );
    lemma_key_by_byte(key, settlement.tx_id, 1);
    lemma_committed_batch(before, writes.push(put));
    lemma_put_last(before, writes, key, bundle.permission_spk_hash@);
}

/// What handling a settlement comes to: a bundle that is parked for the settled state, whatever
/// exits it has, is tracked and no longer parked, and all other bundles stay parked; where none is
/// parked for the state, nothing changes.
pub open spec fn settlement_pairs<X: ExitIndexer>(
    indexer: X,
    settlement: SettlementInfo,
    parked: Map<[u8; 32], ExitsForBundle>,
    still_parked: Map<[u8; 32], ExitsForBundle>,
    before: StoreState,
    after: StoreState,
    registry: Map<TransactionOutpoint, [u8; 32]>,
    updated: Map<TransactionOutpoint, [u8; 32]>,
) -> bool {
    &&& still_parked == parked.remove(settlement.new_state)
    &&& parked.contains_key(settlement.new_state) ==> bundle_tracked(
        indexer,
        parked[settlement.new_state],
        settlement,
        before,
        after,
        registry,
        updated,
    )
    &&& !parked.contains_key(settlement.new_state) ==> after == before && updated == registry
}

/// Handling a settlement pairs it with the bundle parked for its state.
pub proof fn lemma_settlement_pairs<X: ExitIndexer>(
    indexer: X,
    settlement: SettlementInfo,
    parked: Map<[u8; 32], ExitsForBundle>,
    still_parked: Map<[u8; 32], ExitsForBundle>,
    before: StoreState,
    after: StoreState,
    registry: Map<TransactionOutpoint, [u8; 32]>,
    updated: Map<TransactionOutpoint, [u8; 32]>,
)
    requires
        settled(indexer, settlement, parked, still_parked, before, after, registry, updated),
    ensures
        settlement_pairs(
            indexer,
            settlement,
            parked,
            still_parked,
            before,
            after,
            registry,
            updated,
        ),
{
    if parked.contains_key(settlement.new_state) {
        lemma_pairing_tracks_bundle(
            indexer,
            parked[settlement.new_state],
            settlement,
            before,
            after,
            registry,
            updated,
        );
    } else {
        assert(parked.remove(settlement.new_state) =~= parked);
    }
}

/// `at` is the place of the first pair listed with value `value`.
pub open spec fn first_at(listing: Seq<(Seq<u8>, Seq<u8>)>, value: Seq<u8>, at: int) -> bool {
    &&& 0 <= at < listing.len()
    &&& listing[at].1 == value
    &&& forall|j: int| 0 <= j < at ==> (#[trigger] listing[j]).1 != value
}

/// What applying a spend comes to. The output that the spend names by its transaction and its
/// index is in the registry with the new root, and the store holds the new root under its key.
/// Where an entry is listed with the old root, the first such one is deleted, its output leaves
/// the registry, and nothing else does; where none is, nothing leaves. One more batch was
/// committed: the indexer's writes for the spend, the deletion, the put, and no other operation.
pub open spec fn spend_tracks<X: ExitIndexer>(
    indexer: X,
    spend: PermissionSpend,
    listing: Seq<(Seq<u8>, Seq<u8>)>,
    before: StoreState,
    after: StoreState,
    registry: Map<TransactionOutpoint, [u8; 32]>,
    updated: Map<TransactionOutpoint, [u8; 32]>,
) -> bool {
    let output = TransactionOutpoint {
        transaction_id: spend.spend_txid,
        index: spend.new_outpoint_index,
    };
    exists|key: Seq<u8>, writes: Seq<BatchOp>|
        {
            let put = BatchOp::Put { ns: StateSpace::Metadata, key, value: spend.new_root@ };
            &&& #[trigger] is_key_of(key, spend.spend_txid, spend.new_outpoint_index)
            &&& #[trigger] indexer.spend_writes(spend, writes)
            &&& after.entries.contains_pair((StateSpace::Metadata, key), spend.new_root@)
            &&& updated.contains_pair(output, spend.new_root)
            &&& (forall|j: int|
                0 <= j < listing.len() ==> (#[trigger] listing[j]).1 != spend.old_root@) ==> {
                &&& updated == registry.insert(output, spend.new_root)
                &&& one_more_batch(before, after, writes.push(put))
            }
            &&& forall|at: int| #[trigger]
                first_at(listing, spend.old_root@, at) ==> {
                    let spent = listing[at].0;
                    &&& spent != key ==> !after.entries.contains_key((StateSpace::Metadata, spent))
                    &&& one_more_batch(
                        before,
                        after,
                        writes.push(BatchOp::Delete { ns: StateSpace::Metadata, key: spent }).push(
                            put,
                        ),
                    )
                    &&& forall|o: TransactionOutpoint|
                        o != output ==> {
                            &&& #[trigger] updated.contains_key(o) == (registry.contains_key(o)
                                && !is_key_of(spent, o.transaction_id, o.index))
                            &&& updated.contains_key(o) ==> updated[o] == registry[o]
                        }
                }
        }
}

/// Applying a spend tracks the output that the spend names in place of the first entry listed
/// with the spent root.
pub proof fn lemma_spend_tracks<X: ExitIndexer>(
    indexer: X,
    spend: PermissionSpend,
    listing: Seq<(Seq<u8>, Seq<u8>)>,
    before: StoreState,
    after: StoreState,
    registry: Map<TransactionOutpoint, [u8; 32]>,
    updated: Map<TransactionOutpoint, [u8; 32]>,
)
    requires
        spend_applied(indexer, spend, listing, before, after, registry, updated),
    ensures
        spend_tracks(indexer, spend, listing, before, after, registry, updated),
{
    let output = TransactionOutpoint {
        transaction_id: spend.spend_txid,
        index: spend.new_outpoint_index,
    };
    let key = perm_out_bytes(output);
    let put = BatchOp::Put { ns: StateSpace::Metadata, key, value: spend.new_root@ };
    let first = first_key(listing, spend.old_root@);
    let ops = spend_ops(spend, first);
    let writes = choose|writes: Seq<BatchOp>| #[trigger]
        indexer.spend_writes(spend, writes) && after == committed(before, writes + ops);
    lemma_key_by_byte(key, spend.spend_txid, spend.new_outpoint_index);
    lemma_first_key(listing, spend.old_root@);
    lemma_committed_batch(before, writes + ops);
    if forall|j: int| 0 <= j < listing.len() ==> (#[trigger] listing[j]).1 != spend.old_root@ {
        assert(first is None);
        assert(writes + ops =~= writes.push(put));
        lemma_put_last(before, writes, key, spend.new_root@);
    }
    assert forall|at: int| #[trigger] first_at(listing, spend.old_root@, at) implies {
        let spent = listing[at].0;
        &&& first == Some(spent)
        &&& spent != key ==> !after.entries.contains_key((StateSpace::Metadata, spent))
        &&& after.entries.contains_pair((StateSpace::Metadata, key), spend.new_root@)
        &&& one_more_batch(
            before,
            after,
            writes.push(BatchOp::Delete { ns: StateSpace::Metadata, key: spent }).push(put),
        )
        &&& forall|o: TransactionOutpoint|
            o != output ==> {
                &&& #[trigger] updated.contains_key(o) == (registry.contains_key(o) && !is_key_of(
                    spent,
                    o.transaction_id,
                    o.index,
                ))
                &&& updated.contains_key(o) ==> updated[o] == registry[o]
            }
    } by {
        assert(listing[at].1 == spend.old_root@);
        assert(first is Some);
        let i = choose|i: int|
            {
                &&& 0 <= i < listing.len()
                &&& #[trigger] listing[i] == (first->0, spend.old_root@)
                &&& forall|j: int| 0 <= j < i ==> (#[trigger] listing[j]).1 != spend.old_root@
            };
        assert(i == at) by {
            if i < at {
                assert(listing[i].1 != spend.old_root@);
            }
            if at < i {
                assert(listing[at].1 != spend.old_root@);
            }
        }
        let spent = listing[at].0;
        let delete = BatchOp::Delete { ns: StateSpace::Metadata, key: spent };
        assert(writes + ops =~= writes.push(delete).push(put));
        lemma_put_last(before, writes.push(delete), key, spend.new_root@);
        assert(writes.push(delete).drop_last() =~= writes);
        assert forall|o: TransactionOutpoint| o != output implies {
            &&& #[trigger] updated.contains_key(o) == (registry.contains_key(o) && !is_key_of(
                spent,
                o.transaction_id,
                o.index,
            ))
            &&& updated.contains_key(o) ==> updated[o] == registry[o]
        } by {
            lemma_key_by_byte(spent, o.transaction_id, o.index);
        }
    }
    assert(after.entries.contains_pair((StateSpace::Metadata, key), spend.new_root@)) by {
        match first {
            Some(k) => {
                let i = choose|i: int|
                    {
                        &&& 0 <= i < listing.len()
                        &&& #[trigger] listing[i] == (k, spend.old_root@)
                        &&& forall|j: int|
                            0 <= j < i ==> (#[trigger] listing[j]).1 != spend.old_root@
                    };
                assert(first_at(listing, spend.old_root@, i));
            },
            None => {},
        }
    }
}

/// What each event does. A bundle is parked under the state it settles and nothing else changes;
/// a settlement is paired; a spend is applied; and when a channel is closed nothing changes and
/// the indexer stops, which it does at no other time.
pub proof fn lemma_event_by_kind<X: ExitIndexer>(
    indexer: X,
    event: ExitEvent,
    go_on: bool,
    listing: Seq<(Seq<u8>, Seq<u8>)>,
    parked: Map<[u8; 32], ExitsForBundle>,
    still_parked: Map<[u8; 32], ExitsForBundle>,
    before: StoreState,
    after: StoreState,
    registry: Map<TransactionOutpoint, [u8; 32]>,
    updated: Map<TransactionOutpoint, [u8; 32]>,
)
    requires
        event_handled(
            indexer,
            event,
            go_on,
            listing,
            parked,
            still_parked,
            before,
            after,
            registry,
            updated,
        ),
    ensures
        go_on == (event != ExitEvent::Bundle(None) && event != ExitEvent::Settlement(None) && event
            != ExitEvent::Spend(None)),
        !go_on ==> still_parked == parked && after == before && updated == registry,
        event matches ExitEvent::Bundle(Some(bundle)) ==> still_parked == parked.insert(
            bundle.new_state,
            bundle,
        ) && after == before && updated == registry,
        event matches ExitEvent::Settlement(Some(settlement)) ==> settlement_pairs(
            indexer,
            settlement,
            parked,
            still_parked,
            before,
            after,
            registry,
            updated,
        ),
        event matches ExitEvent::Spend(Some(spend)) ==> still_parked == parked && spend_tracks(
            indexer,
            spend,
            listing,
            before,
            after,
            registry,
            updated,
        ),
{
    match event {
        ExitEvent::Settlement(Some(settlement)) => {
            lemma_settlement_pairs(
                indexer,
                settlement,
                parked,
                still_parked,
                before,
                after,
                registry,
                updated,
            );
        },
        ExitEvent::Spend(Some(spend)) => {
            lemma_spend_tracks(indexer, spend, listing, before, after, registry, updated);
        },
        _ => {},
    }
}

/// The key of an output, spelled out.
proof fn lemma_key_spelled(key: Seq<u8>, tx_id: [u8; 32], index: u32)
    requires
        is_key_of(key, tx_id, index),
    ensures
        key == seq![0x70u8, 0x65, 0x72, 0x6d, 0x5f, 0x6f, 0x75, 0x74] + tx_id@ + seq![
            (index / 0x100_0000) as u8,
            (index / 0x1_0000 % 256) as u8,
            (index / 256 % 256) as u8,
            (index % 256) as u8,
        ],
{
    assert(key =~= key.subrange(0, 8) + key.subrange(8, 40) + seq![
        key[40],
        key[41],
        key[42],
        key[43],
    ]);
}

/// Once a settlement is handled, whatever exits the bundle has that was parked for its state, and
/// even none: output 1 of the settlement's transaction is in the registry with the bundle's root;
/// the store holds the root under the prefix, the transaction and the bytes of 1; one more batch
/// was committed; and no bundle is parked for the state.
pub proof fn lemma_settled_bundle_is_tracked<X: ExitIndexer>(
    indexer: X,
    event: ExitEvent,
    settlement: SettlementInfo,
    go_on: bool,
    listing: Seq<(Seq<u8>, Seq<u8>)>,
    parked: Map<[u8; 32], ExitsForBundle>,
    still_parked: Map<[u8; 32], ExitsForBundle>,
    before: StoreState,
    after: StoreState,
    registry: Map<TransactionOutpoint, [u8; 32]>,
    updated: Map<TransactionOutpoint, [u8; 32]>,
)
    requires
        settled(indexer, settlement, parked, still_parked, before, after, registry, updated) || (
        event == ExitEvent::Settlement(Some(settlement)) && event_handled(
            indexer,
            event,
            go_on,
            listing,
            parked,
            still_parked,
            before,
            after,
            registry,
            updated,
        )),
        parked.contains_key(settlement.new_state),
    ensures
        updated.contains_pair(
            TransactionOutpoint { transaction_id: settlement.tx_id, index: 1 },
            parked[settlement.new_state].permission_spk_hash,
        ),
        after.entries.contains_pair(
            (
                StateSpace::Metadata,
                seq![0x70u8, 0x65, 0x72, 0x6d, 0x5f, 0x6f, 0x75, 0x74] + settlement.tx_id@ + seq![
                    0u8,
                    0,
                    0,
                    1,
                ],
            ),
            parked[settlement.new_state].permission_spk_hash@,
        ),
        after.commits.len() == before.commits.len() + 1,
        !still_parked.contains_key(settlement.new_state),
        forall|state: [u8; 32]|
            state != settlement.new_state ==> (#[trigger] still_parked.contains_key(state)
                == parked.contains_key(state)) && still_parked[state] == parked[state],
{
    lemma_settlement_pairs(
        indexer,
        settlement,
        parked,
        still_parked,
        before,
        after,
        registry,
        updated,
    );
    let bundle = parked[settlement.new_state];
    let (key, writes) = choose|key: Seq<u8>, writes: Seq<BatchOp>|
        {
            &&& #[trigger] is_key_of(key, settlement.tx_id, 1)
            &&& #[trigger] indexer.exits_writes(bundle, settlement, writes)
            &&& after.entries.contains_pair(
                (StateSpace::Metadata, key),
                bundle.permission_spk_hash@,
            )
            &&& one_more_batch(
                before,
                after,
                writes.push(
                    BatchOp::Put {
                        ns: StateSpace::Metadata,
                        key,
                        value: bundle.permission_spk_hash@,
                    },
                ),
            )
        };
    lemma_key_spelled(key, settlement.tx_id, 1);
}

/// Once a spend is applied, the output that the spend names, by its transaction and its index, is
/// in the registry with the new root; the store holds the new root under the prefix, the
/// transaction and the index in four bytes, most significant first; and one more batch was
/// committed.
pub proof fn lemma_named_output_is_tracked<X: ExitIndexer>(
    indexer: X,
    event: ExitEvent,
    spend: PermissionSpend,
    go_on: bool,
    listing: Seq<(Seq<u8>, Seq<u8>)>,
    parked: Map<[u8; 32], ExitsForBundle>,
    still_parked: Map<[u8; 32], ExitsForBundle>,
    before: StoreState,
    after: StoreState,
    registry: Map<TransactionOutpoint, [u8; 32]>,
    updated: Map<TransactionOutpoint, [u8; 32]>,
)
    requires
        spend_applied(indexer, spend, listing, before, after, registry, updated) || (event
            == ExitEvent::Spend(Some(spend)) && event_handled(
            indexer,
            event,
            go_on,
            listing,
            parked,
            still_parked,
            before,
            after,
            registry,
            updated,
        )),
    ensures
        updated.contains_pair(
            TransactionOutpoint {
                transaction_id: spend.spend_txid,
                index: spend.new_outpoint_index,
            },
            spend.new_root,
        ),
        after.entries.contains_pair(
            (
                StateSpace::Metadata,
                seq![0x70u8, 0x65, 0x72, 0x6d, 0x5f, 0x6f, 0x75, 0x74] + spend.spend_txid@ + seq![
                    (spend.new_outpoint_index / 0x100_0000) as u8,
                    (spend.new_outpoint_index / 0x1_0000 % 256) as u8,
                    (spend.new_outpoint_index / 256 % 256) as u8,
                    (spend.new_outpoint_index % 256) as u8,
                ],
            ),
            spend.new_root@,
        ),
        after.commits.len() == before.commits.len() + 1,
{
    lemma_spend_tracks(indexer, spend, listing, before, after, registry, updated);
    let key = perm_out_bytes(
        TransactionOutpoint { transaction_id: spend.spend_txid, index: spend.new_outpoint_index },
    );
    lemma_key_by_byte(key, spend.spend_txid, spend.new_outpoint_index);
    lemma_key_spelled(key, spend.spend_txid, spend.new_outpoint_index);
    assert forall|k: Seq<u8>| #[trigger]
        is_key_of(k, spend.spend_txid, spend.new_outpoint_index) implies k == key by {
        lemma_key_by_byte(k, spend.spend_txid, spend.new_outpoint_index);
    }
    let writes = choose|writes: Seq<BatchOp>| #[trigger]
        indexer.spend_writes(spend, writes) && after == committed(
            before,
            writes + spend_ops(spend, first_key(listing, spend.old_root@)),
        );
    lemma_committed_batch(
        before,
        writes + spend_ops(spend, first_key(listing, spend.old_root@)),
    );
}

/// A spend is looked for among all entries whose keys begin with the prefix, and no others: the
/// list that is searched holds each of them, once and with its value.
pub proof fn lemma_spend_searches_all<X: ExitIndexer>(
    indexer: X,
    spend: PermissionSpend,
    listing: Seq<(Seq<u8>, Seq<u8>)>,
    before: StoreState,
    after: StoreState,
    registry: Map<TransactionOutpoint, [u8; 32]>,
    updated: Map<TransactionOutpoint, [u8; 32]>,
    key: Seq<u8>,
    value: Seq<u8>,
)
    requires
        spend_applied(indexer, spend, listing, before, after, registry, updated),
    ensures
        listing.contains((key, value)) <==> {
            &&& before.entries.contains_pair((StateSpace::Metadata, key), value)
            &&& key.len() >= 8
            &&& key.take(8) == seq![0x70u8, 0x65, 0x72, 0x6d, 0x5f, 0x6f, 0x75, 0x74]
        },
        forall|i: int, j: int|
            #![trigger listing[i], listing[j]]
            0 <= i < j < listing.len() ==> listing[i].0 != listing[j].0,
{
    let prefix = seq![0x70u8, 0x65, 0x72, 0x6d, 0x5f, 0x6f, 0x75, 0x74];
    assert(PERM_OUT_PREFIX@ =~= prefix);
    lemma_listing_by_key(listing, before, StateSpace::Metadata, PERM_OUT_PREFIX@, key, value);
    if key.len() >= 8 {
        if key.take(8) == prefix {
            assert forall|i: int| 0 <= i < prefix.len() implies key[i] == #[trigger] prefix[i] by {
                assert(key.take(8)[i] == key[i]);
            }
        }
        if forall|i: int| 0 <= i < prefix.len() ==> key[i] == #[trigger] prefix[i] {
            assert(key.take(8) =~= prefix);
        }
    }
}

/// Outputs and states are keys that stand for themselves.
pub proof fn lemma_keys_stand_for_themselves(o: TransactionOutpoint, state: [u8; 32])
    ensures
        o.model() == o,
        state.model() == state,
{
}

/// What a store tracks: an output has a root where the metadata holds that root, in 32 bytes,
/// under the key made of the output's fields.
pub proof fn lemma_tracked_by_key(state: StoreState, o: TransactionOutpoint, root: [u8; 32])
    ensures
        tracked_outputs(state).contains_pair(o, root) <==> exists|key: Seq<u8>|
            #[trigger] is_key_of(key, o.transaction_id, o.index) && state.entries.contains_pair(
                (StateSpace::Metadata, key),
                root@,
            ),
        tracked_outputs(state).contains_key(o) <==> exists|key: Seq<u8>|
            #[trigger] is_key_of(key, o.transaction_id, o.index) && state.entries.contains_key(
                (StateSpace::Metadata, key),
            ) && state.entries[(StateSpace::Metadata, key)].len() == 32,
{
    let k = perm_out_bytes(o);
    lemma_key_by_byte(k, o.transaction_id, o.index);
    assert forall|key: Seq<u8>| #[trigger] is_key_of(key, o.transaction_id, o.index) implies key
        == k by {
        lemma_key_by_byte(key, o.transaction_id, o.index);
    }
    crate::bytes::lemma_array32(root);
    let ek = (StateSpace::Metadata, k);
    if tracked_outputs(state).contains_pair(o, root) {
        crate::bytes::lemma_array32_view(state.entries[ek]);
        assert(state.entries[ek] == root@);
    }
}

proof fn lemma_perm_out_key_by_byte(key: Seq<u8>)
    ensures
        is_perm_out_key(key) <==> exists|o: TransactionOutpoint| #[trigger]
            is_key_of(key, o.transaction_id, o.index),
{
    if is_perm_out_key(key) {
        let o = choose|o: TransactionOutpoint| key == #[trigger] perm_out_bytes(o);
        lemma_key_by_byte(key, o.transaction_id, o.index);
    }
    if exists|o: TransactionOutpoint| #[trigger] is_key_of(key, o.transaction_id, o.index) {
        let o = choose|o: TransactionOutpoint| #[trigger]
            is_key_of(key, o.transaction_id, o.index);
        lemma_key_by_byte(key, o.transaction_id, o.index);
    }
}

/// What loading passes over, in the order of the list: each key that is the key of no output; and
/// each that is the key of one, where its value has not 32 bytes. Nothing else is passed over.
pub proof fn lemma_skipped_by_entry(
    listing: Seq<(Seq<u8>, Seq<u8>)>,
    key: Seq<u8>,
    value: Seq<u8>,
)
    ensures
        undecodable_outpoints(Seq::empty()).len() == 0,
        undecodable_roots(Seq::empty()).len() == 0,
        ({
            let more = listing.push((key, value));
            let is_output = exists|o: TransactionOutpoint| #[trigger]
                is_key_of(key, o.transaction_id, o.index);
            &&& undecodable_outpoints(more) == if is_output {
                undecodable_outpoints(listing)
            } else {
                undecodable_outpoints(listing).push(key)
            }
            &&& undecodable_roots(more) == if is_output && value.len() != 32 {
                undecodable_roots(listing).push(key)
            } else {
                undecodable_roots(listing)
            }
        }),
{
    reveal(Seq::filter);
    lemma_perm_out_key_by_byte(key);
    let more = listing.push((key, value));
    assert(more.drop_last() =~= listing);
    let outpoints = undecodable_outpoints(listing);
    let roots = undecodable_roots(listing);
    if !is_perm_out_key(key) {
        assert(undecodable_outpoints(more) =~= outpoints.push(key));
        assert(undecodable_roots(more) =~= roots);
    } else {
        assert(undecodable_outpoints(more) =~= outpoints);
        if value.len() != 32 {
            assert(undecodable_roots(more) =~= roots.push(key));
        } else {
            assert(undecodable_roots(more) =~= roots);
        }
    }
}

/// A change of the registry puts in its output with its root, takes out the one that goes, and
/// leaves every other as it was; no change leaves all.
pub proof fn lemma_change_by_output(
    registry: Map<TransactionOutpoint, [u8; 32]>,
    c: RegistryChange,
    o: TransactionOutpoint,
)
    ensures
        changed(registry, None) == registry,
        ({
            let after = changed(registry, Some(c));
            &&& after.contains_pair(c.inserted, c.root)
            &&& o != c.inserted ==> {
                &&& after.contains_key(o) == (registry.contains_key(o) && c.removed != Some(o))
                &&& after.contains_key(o) ==> after[o] == registry[o]
            }
        }),
{
}

} // verus!
