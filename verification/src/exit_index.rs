//! Index of permission outputs, kept in step with settled bundles and permission spends.

use vstd::prelude::*;
use vstd::slice::slice_subrange;

use crate::assoc::AssocMap;
use crate::bytes::{
    array32, be_bytes, copy32, copy_bytes, equal32, has_prefix, le_bytes, le_value, lemma_array32,
    lemma_array_view_eq, lemma_be_bytes_len, lemma_byte_range_values, lemma_le_value_of_bytes,
    starts_with,
};
use crate::l1::{PermissionSpend, SettlementInfo, TransactionOutpoint};
use crate::permission_tree::ExitLeaf;
use crate::storage::{
    apply_op, apply_ops, committed, in_range, is_listing, lemma_last_op_prevails, pairs_view,
    BatchOp, EntryKey, StateSpace, Store, StoreState, WriteBatch,
};

verus! {

/// Prefix of the keys of permission outputs: `perm_out`.
pub const PERM_OUT_PREFIX: [u8; 8] = [0x70, 0x65, 0x72, 0x6d, 0x5f, 0x6f, 0x75, 0x74];

/// The key of a permission output: the prefix, the transaction, the output's index in four bytes,
/// most significant first.
pub open spec fn perm_out_bytes(outpoint: TransactionOutpoint) -> Seq<u8> {
    PERM_OUT_PREFIX@ + outpoint.transaction_id@ + be_bytes(outpoint.index as nat, 4)
}

/// The exits of a bundle of batches, waiting for the settlement of the bundle.
#[derive(Clone, Debug)]
pub struct ExitsForBundle {
    /// The state root that the bundle settles.
    pub new_state: [u8; 32],
    /// The root of the permission tree over the exits.
    pub permission_spk_hash: [u8; 32],
    /// The exits.
    pub leaves: Vec<ExitLeaf>,
}

/// Application hook over committed exits and permission spends.
pub trait ExitIndexer: Send + Sync + 'static {
    /// `writes` is what this indexer may write for a committed bundle: by default, anything.
    open spec fn exits_writes(
        &self,
        bundle: ExitsForBundle,
        settlement: SettlementInfo,
        writes: Seq<BatchOp>,
    ) -> bool {
        true
    }

    /// `writes` is what this indexer may write for a spend: by default, anything.
    open spec fn spend_writes(&self, spend: PermissionSpend, writes: Seq<BatchOp>) -> bool {
        true
    }

    /// Takes note of a committed bundle and its settlement.
    fn on_exits_committed<W: WriteBatch>(
        &self,
        bundle: &ExitsForBundle,
        settlement: &SettlementInfo,
        wb: &mut W,
    )
        ensures
            exists|writes: Seq<BatchOp>| #[trigger]
                self.exits_writes(*bundle, *settlement, writes) && final(wb).ops() == old(wb).ops()
                    + writes,
    ;

    /// Takes note of a spend.
    fn on_permission_spent<W: WriteBatch>(&self, spend: &PermissionSpend, wb: &mut W)
        ensures
            exists|writes: Seq<BatchOp>| #[trigger]
                self.spend_writes(*spend, writes) && final(wb).ops() == old(wb).ops() + writes,
    ;
}

/// The tracked permission outputs and their roots.
pub type Registry = AssocMap<TransactionOutpoint, [u8; 32]>;

/// The bundles that wait for their settlement, by the state root they settle.
pub type ParkedBundles = AssocMap<[u8; 32], ExitsForBundle>;

/// Calls `borsh::to_vec` on an array of 32 bytes. The contract says that the encoding is the
/// bytes themselves.
#[verifier::external_body]
fn encode_root(root: &[u8; 32]) -> (r: Vec<u8>)
    ensures
        r@ == root@,
{
    borsh::to_vec(root).expect("writing to a vector does not fail")
}

/// Calls `borsh::from_slice` for an array of 32 bytes. The contract says that it gives back the
/// bytes if there are 32 of them, and otherwise fails.
#[verifier::external_body]
pub(crate) fn decode_root(bytes: &[u8]) -> (r: Option<[u8; 32]>)
    ensures
        match r {
            Some(root) => root@ == bytes@,
            None => bytes@.len() != 32,
        },
{
    borsh::from_slice::<[u8; 32]>(bytes).ok()
}

/// The four bytes of a number, most significant first.
pub proof fn lemma_be4(n: nat)
    requires
        n < 0x1_0000_0000,
    ensures
        be_bytes(n, 4) == seq![
            (n / 0x100_0000) as u8,
            (n / 0x1_0000 % 256) as u8,
            (n / 256 % 256) as u8,
            (n % 256) as u8,
        ],
{
    reveal_with_fuel(crate::bytes::le_bytes, 5);
    assert(n / 256 / 256 == n / 0x1_0000);
    assert(n / 256 / 256 / 256 == n / 0x100_0000);
    assert(be_bytes(n, 4) =~= seq![
        (n / 0x100_0000) as u8,
        (n / 0x1_0000 % 256) as u8,
        (n / 256 % 256) as u8,
        (n % 256) as u8,
    ]);
}

/// Four bytes are the digits of the number they make up.
proof fn lemma_be4_of_bytes(a: u8, b: u8, c: u8, d: u8)
    ensures
        be_bytes((a * 0x100_0000 + b * 0x1_0000 + c * 256 + d) as nat, 4) == seq![a, b, c, d],
{
    let n = (a * 0x100_0000 + b * 0x1_0000 + c * 256 + d) as nat;
    lemma_be4(n);
    assert(n / 0x100_0000 == a);
    assert(n / 0x1_0000 % 256 == b);
    assert(n / 256 % 256 == c);
    assert(n % 256 == d);
}

/// The key of output `index` of transaction `tx_id`.
pub fn perm_out_key(tx_id: &[u8; 32], index: u32) -> (key: [u8; 44])
    ensures
        key@ == perm_out_bytes(TransactionOutpoint { transaction_id: *tx_id, index }),
{
    let mut key: [u8; 44] = [0u8; 44];
    let mut i: usize = 0;
    while i < 8
        invariant
            i <= 8,
            forall|j: int| 0 <= j < i ==> key@[j] == PERM_OUT_PREFIX@[j],
        decreases 8 - i,
    {
        key[i] = PERM_OUT_PREFIX[i];
        i += 1;
    }
    let mut k: usize = 0;
    while k < 32
        invariant
            k <= 32,
            forall|j: int| 0 <= j < 8 ==> key@[j] == PERM_OUT_PREFIX@[j],
            forall|j: int| 0 <= j < k ==> key@[8 + j] == tx_id@[j],
        decreases 32 - k,
    {
        key[8 + k] = tx_id[k];
        k += 1;
    }
    key[40] = (index / 0x100_0000) as u8;
    key[41] = (index / 0x1_0000 % 256) as u8;
    key[42] = (index / 256 % 256) as u8;
    key[43] = (index % 256) as u8;
    proof {
        let outpoint = TransactionOutpoint { transaction_id: *tx_id, index };
        lemma_be4(index as nat);
        assert forall|j: int| 8 <= j < 40 implies key@[j] == tx_id@[j - 8] by {
            assert(key@[8 + (j - 8)] == tx_id@[j - 8]);
        }
        assert(key@ =~= perm_out_bytes(outpoint));
    }
    key
}

/// The permission output that a key is for, if it is the key of one.
pub fn parse_perm_out_key(key: &[u8]) -> (r: Option<TransactionOutpoint>)
    ensures
        match r {
            Some(outpoint) => key@ == perm_out_bytes(outpoint),
            None => forall|outpoint: TransactionOutpoint|
                key@ != #[trigger] perm_out_bytes(outpoint),
        },
        r is Some <==> key@.len() == 44 && has_prefix(key@, PERM_OUT_PREFIX@),
{
    if key.len() != 44 || !starts_with(key, PERM_OUT_PREFIX.as_slice()) {
        proof {
            assert forall|outpoint: TransactionOutpoint|
                key@ != #[trigger] perm_out_bytes(outpoint) by {
                lemma_perm_out_bytes(outpoint);
            }
        }
        return None;
    }
    let transaction_id = copy32(slice_subrange(key, 8, 40));
    let index: u32 = key[40] as u32 * 0x100_0000 + key[41] as u32 * 0x1_0000 + key[42] as u32 * 256
        + key[43] as u32;
    let outpoint = TransactionOutpoint { transaction_id, index };
    proof {
        lemma_be4_of_bytes(key@[40], key@[41], key@[42], key@[43]);
        assert(key@ =~= key@.take(8) + key@.subrange(8, 40) + key@.subrange(40, 44));
        assert(key@.subrange(40, 44) =~= seq![key@[40], key@[41], key@[42], key@[43]]);
    }
    Some(outpoint)
}

/// The key of a permission output has 44 bytes and begins with the prefix.
pub proof fn lemma_perm_out_bytes(outpoint: TransactionOutpoint)
    ensures
        perm_out_bytes(outpoint).len() == 44,
        has_prefix(perm_out_bytes(outpoint), PERM_OUT_PREFIX@),
{
    lemma_be_bytes_len(outpoint.index as nat, 4);
    assert(perm_out_bytes(outpoint).take(8) =~= PERM_OUT_PREFIX@);
}

/// Four bytes, most significant first, determine the number they are written for.
proof fn lemma_be_value(n: u32)
    ensures
        le_value(be_bytes(n as nat, 4).reverse()) == n,
{
    lemma_byte_range_values();
    lemma_le_value_of_bytes(n as nat, 4);
    assert(be_bytes(n as nat, 4).reverse() =~= le_bytes(n as nat, 4));
}

/// Different permission outputs have different keys.
pub proof fn lemma_perm_out_injective(a: TransactionOutpoint, b: TransactionOutpoint)
    requires
        perm_out_bytes(a) == perm_out_bytes(b),
    ensures
        a == b,
{
    let s = perm_out_bytes(a);
    let t = perm_out_bytes(b);
    lemma_be_bytes_len(a.index as nat, 4);
    lemma_be_bytes_len(b.index as nat, 4);
    assert(be_bytes(a.index as nat, 4) =~= s.subrange(40, 44));
    assert(be_bytes(b.index as nat, 4) =~= t.subrange(40, 44));
    lemma_be_value(a.index);
    lemma_be_value(b.index);
    assert(a.transaction_id@ =~= s.subrange(8, 40));
    assert(b.transaction_id@ =~= t.subrange(8, 40));
    lemma_array_view_eq(a.transaction_id, b.transaction_id);
}

/// The permission outputs that a store tracks: those whose key has a value of 32 bytes.
pub open spec fn tracked_outputs(state: StoreState) -> Map<TransactionOutpoint, [u8; 32]> {
    outputs_in(state.entries)
}

/// The permission outputs among the entries of a store.
pub open spec fn outputs_in(entries: Map<EntryKey, Seq<u8>>) -> Map<
    TransactionOutpoint,
    [u8; 32],
> {
    Map::new(
        |o: TransactionOutpoint|
            {
                let key = (StateSpace::Metadata, perm_out_bytes(o));
                entries.contains_key(key) && entries[key].len() == 32
            },
        |o: TransactionOutpoint|
            array32(entries[(StateSpace::Metadata, perm_out_bytes(o))]),
    )
}

/// One of the first `n` entries is for `o`.
spec fn listed(entries: Seq<(Seq<u8>, Seq<u8>)>, n: int, o: TransactionOutpoint) -> bool {
    exists|j: int| 0 <= j < n && (#[trigger] entries[j]).0 == perm_out_bytes(o)
}

/// Decodes the permission outputs that a store listed. Keys that are not those of permission
/// outputs, and values that are not roots, are passed over.
fn registry_of<S: Store>(store: &S, entries: &Vec<(Vec<u8>, Vec<u8>)>) -> (registry: Registry)
    requires
        is_listing(
            pairs_view(entries@),
            store.state(),
            StateSpace::Metadata,
            PERM_OUT_PREFIX@,
        ),
    ensures
        registry@ == tracked_outputs(store.state()),
{
    let ghost listing = pairs_view(entries@);
    let ghost held = tracked_outputs(store.state());
    let mut registry: Registry = AssocMap::new();
    let mut i: usize = 0;
    while i < entries.len()
        invariant
            i <= entries@.len(),
            listing == pairs_view(entries@),
            held == tracked_outputs(store.state()),
            is_listing(listing, store.state(), StateSpace::Metadata, PERM_OUT_PREFIX@),
            forall|o: TransactionOutpoint|
                #![trigger registry@.contains_key(o)]
                registry@.contains_key(o) == (listed(listing, i as int, o) && held.contains_key(
                    o,
                )),
            forall|o: TransactionOutpoint|
                #![trigger registry@[o]]
                registry@.contains_key(o) ==> registry@[o] == held[o],
        decreases entries@.len() - i,
    {
        let ghost before = registry@;
        let key = entries[i].0.as_slice();
        let value = entries[i].1.as_slice();
        assert(listing[i as int] == (key@, value@));
        let outpoint = parse_perm_out_key(key);
        if let Some(o) = outpoint {
            if let Some(root) = decode_root(value) {
                proof {
                    lemma_array32(root);
                    assert(held.contains_key(o) && held[o] == root);
                }
                registry.insert(o, root);
            } else {
                assert(!held.contains_key(o));
            }
        }
        proof {
            assert forall|q: TransactionOutpoint|
                #![trigger registry@.contains_key(q)]
                registry@.contains_key(q) == (listed(listing, i + 1, q) && held.contains_key(
                    q,
                )) by {
                assert(before.contains_key(q) == (listed(listing, i as int, q)
                    && held.contains_key(q)));
                if perm_out_bytes(q) == key@ {
                    assert(outpoint is Some);
                    lemma_perm_out_injective(q, outpoint->0);
                    assert(listing[i as int].0 == perm_out_bytes(q));
                    assert(listed(listing, i + 1, q));
                } else {
                    if listed(listing, i as int, q) {
                        let j = choose|j: int|
                            0 <= j < i && (#[trigger] listing[j]).0 == perm_out_bytes(q);
                        assert(listing[j].0 == perm_out_bytes(q));
                        assert(listed(listing, i + 1, q));
                    }
                    if listed(listing, i + 1, q) {
                        let j = choose|j: int|
                            0 <= j < i + 1 && (#[trigger] listing[j]).0 == perm_out_bytes(q);
                        assert(j < i);
                        assert(listed(listing, i as int, q));
                    }
                }
            }
        }
        i += 1;
    }
    proof {
        assert forall|o: TransactionOutpoint| held.contains_key(o) implies listed(
            listing,
            i as int,
            o,
        ) by {
            lemma_perm_out_bytes(o);
            assert(store.state().entries.contains_key((StateSpace::Metadata, perm_out_bytes(o))));
            let j = choose|j: int|
                0 <= j < listing.len() && (#[trigger] listing[j]).0 == perm_out_bytes(o);
            assert(listing[j].0 == perm_out_bytes(o));
        }
        assert(registry@ =~= held);
    }
    registry
}

/// The keys of entries that loading the registry passes over.
#[derive(Clone, Debug)]
pub struct SkippedEntries {
    /// Keys under the prefix of permission outputs that are not the key of one.
    pub outpoints: Vec<Vec<u8>>,
    /// Keys of permission outputs whose value is not a root.
    pub roots: Vec<Vec<u8>>,
}

/// The keys listed that are not those of permission outputs.
pub open spec fn undecodable_outpoints(listing: Seq<(Seq<u8>, Seq<u8>)>) -> Seq<Seq<u8>> {
    listing.filter(|e: (Seq<u8>, Seq<u8>)| !is_perm_out_key(e.0)).map_values(
        |e: (Seq<u8>, Seq<u8>)| e.0,
    )
}

/// The keys listed that are those of permission outputs and whose values are not roots.
pub open spec fn undecodable_roots(listing: Seq<(Seq<u8>, Seq<u8>)>) -> Seq<Seq<u8>> {
    listing.filter(
        |e: (Seq<u8>, Seq<u8>)| is_perm_out_key(e.0) && e.1.len() != 32,
    ).map_values(|e: (Seq<u8>, Seq<u8>)| e.0)
}

/// `key` is the key of a permission output.
pub open spec fn is_perm_out_key(key: Seq<u8>) -> bool {
    exists|o: TransactionOutpoint| key == #[trigger] perm_out_bytes(o)
}

/// The byte strings of a list.
pub open spec fn keys_view(keys: Seq<Vec<u8>>) -> Seq<Seq<u8>> {
    keys.map_values(|key: Vec<u8>| key@)
}

/// The last entry listed adds its key to one of the lists of what is passed over, or to none.
proof fn lemma_skipped_last(listing: Seq<(Seq<u8>, Seq<u8>)>)
    requires
        listing.len() > 0,
    ensures
        ({
            let (key, value) = listing.last();
            let outpoints = undecodable_outpoints(listing.drop_last());
            let roots = undecodable_roots(listing.drop_last());
            &&& undecodable_outpoints(listing) == if is_perm_out_key(key) {
                outpoints
            } else {
                outpoints.push(key)
            }
            &&& undecodable_roots(listing) == if is_perm_out_key(key) && value.len() != 32 {
                roots.push(key)
            } else {
                roots
            }
        }),
{
    reveal(Seq::filter);
    let (key, value) = listing.last();
    let outpoints = undecodable_outpoints(listing.drop_last());
    let roots = undecodable_roots(listing.drop_last());
    if !is_perm_out_key(key) {
        assert(undecodable_outpoints(listing) =~= outpoints.push(key));
    } else if value.len() != 32 {
        assert(undecodable_roots(listing) =~= roots.push(key));
    }
}

/// Restores the tracked permission outputs from a store.
pub fn load_registry<S: Store>(store: &S) -> (registry: Registry)
    ensures
        registry@ == tracked_outputs(store.state()),
{
    let entries = store.prefix_iter(StateSpace::Metadata, PERM_OUT_PREFIX.as_slice());
    registry_of(store, &entries)
}

/// Restores the tracked permission outputs from a store, and lists what is passed over, in the
/// order in which the store lists it.
pub fn load_registry_with_skipped<S: Store>(store: &S) -> (r: (Registry, SkippedEntries))
    ensures
        r.0@ == tracked_outputs(store.state()),
        ({
            let listing = store.listing(StateSpace::Metadata, PERM_OUT_PREFIX@);
            &&& keys_view(r.1.outpoints@) == undecodable_outpoints(listing)
            &&& keys_view(r.1.roots@) == undecodable_roots(listing)
        }),
{
    let entries = store.prefix_iter(StateSpace::Metadata, PERM_OUT_PREFIX.as_slice());
    (registry_of(store, &entries), skipped_in(&entries))
}

/// Lists what decoding `entries` passes over, in their order.
fn skipped_in(entries: &Vec<(Vec<u8>, Vec<u8>)>) -> (r: SkippedEntries)
    ensures
        keys_view(r.outpoints@) == undecodable_outpoints(pairs_view(entries@)),
        keys_view(r.roots@) == undecodable_roots(pairs_view(entries@)),
{
    let ghost listing = pairs_view(entries@);
    let mut outpoints: Vec<Vec<u8>> = Vec::new();
    let mut roots: Vec<Vec<u8>> = Vec::new();
    let mut i: usize = 0;
    proof {
        reveal(Seq::filter);
        assert(listing.take(0) =~= Seq::empty());
        assert(keys_view(outpoints@) =~= undecodable_outpoints(listing.take(0)));
        assert(keys_view(roots@) =~= undecodable_roots(listing.take(0)));
    }
    while i < entries.len()
        invariant
            i <= entries@.len(),
            listing == pairs_view(entries@),
            keys_view(outpoints@) == undecodable_outpoints(listing.take(i as int)),
            keys_view(roots@) == undecodable_roots(listing.take(i as int)),
        decreases entries@.len() - i,
    {
        let ghost had_outpoints = outpoints@;
        let ghost had_roots = roots@;
        let key = entries[i].0.as_slice();
        proof {
            let next = listing.take(i + 1);
            assert(next.drop_last() =~= listing.take(i as int));
            assert(next.last() == (key@, entries@[i as int].1@));
            lemma_skipped_last(next);
        }
        match parse_perm_out_key(key) {
            None => {
                outpoints.push(copy_bytes(key));
                assert(keys_view(outpoints@) =~= keys_view(had_outpoints).push(key@));
            },
            Some(o) => {
                assert(is_perm_out_key(key@));
                if decode_root(entries[i].1.as_slice()).is_none() {
                    roots.push(copy_bytes(key));
                    assert(keys_view(roots@) =~= keys_view(had_roots).push(key@));
                }
            },
        }
        i += 1;
    }
    assert(listing.take(i as int) =~= listing);
    SkippedEntries { outpoints, roots }
}

/// The permission output that a settlement creates: output 1 of its transaction.
pub open spec fn settled_output(settlement: SettlementInfo) -> TransactionOutpoint {
    TransactionOutpoint { transaction_id: settlement.tx_id, index: 1 }
}

/// The write that tracks a permission output.
pub open spec fn track(outpoint: TransactionOutpoint, root: [u8; 32]) -> BatchOp {
    BatchOp::Put { ns: StateSpace::Metadata, key: perm_out_bytes(outpoint), value: root@ }
}

/// A change of the registry: an output that goes, if any, and one that comes.
#[derive(Clone, Copy, Debug)]
pub struct RegistryChange {
    pub removed: Option<TransactionOutpoint>,
    pub inserted: TransactionOutpoint,
    pub root: [u8; 32],
}

/// The registry after a change, if there is one.
pub open spec fn changed(
    registry: Map<TransactionOutpoint, [u8; 32]>,
    change: Option<RegistryChange>,
) -> Map<TransactionOutpoint, [u8; 32]> {
    match change {
        None => registry,
        Some(c) => match c.removed {
            None => registry.insert(c.inserted, c.root),
            Some(o) => registry.remove(o).insert(c.inserted, c.root),
        },
    }
}

impl RegistryChange {
    /// Makes the change.
    pub fn apply(&self, registry: &mut Registry)
        ensures
            final(registry)@ == changed(old(registry)@, Some(*self)),
    {
        if let Some(o) = &self.removed {
            let _ = registry.remove(o);
        }
        registry.insert(self.inserted, self.root);
    }
}

/// A bundle was committed with its settlement: one batch was committed, and it holds the indexer's
/// writes followed by the write that tracks the permission output.
pub open spec fn pairing_committed<X: ExitIndexer>(
    indexer: X,
    bundle: ExitsForBundle,
    settlement: SettlementInfo,
    before: StoreState,
    after: StoreState,
) -> bool {
    exists|writes: Seq<BatchOp>| #[trigger]
        indexer.exits_writes(bundle, settlement, writes) && after == committed(
            before,
            writes.push(track(settled_output(settlement), bundle.permission_spk_hash)),
        )
}

/// A bundle was committed with its settlement, in one batch, and the registry holds the permission
/// output.
pub open spec fn paired<X: ExitIndexer>(
    indexer: X,
    bundle: ExitsForBundle,
    settlement: SettlementInfo,
    before: StoreState,
    after: StoreState,
    registry: Map<TransactionOutpoint, [u8; 32]>,
    updated: Map<TransactionOutpoint, [u8; 32]>,
) -> bool {
    &&& pairing_committed(indexer, bundle, settlement, before, after)
    &&& updated == registry.insert(settled_output(settlement), bundle.permission_spk_hash)
}

/// Commits a bundle with its settlement to the store, and returns what is to change in the
/// registry.
pub fn commit_pairing<X: ExitIndexer, S: Store>(
    bundle: &ExitsForBundle,
    settlement: &SettlementInfo,
    indexer: &X,
    store: &mut S,
) -> (change: RegistryChange)
    ensures
        pairing_committed(
            *indexer,
            *bundle,
            *settlement,
            old(store).state(),
            final(store).state(),
        ),
        change == (RegistryChange {
            removed: None,
            inserted: settled_output(*settlement),
            root: bundle.permission_spk_hash,
        }),
{
    let mut wb = store.write_batch();
    indexer.on_exits_committed(bundle, settlement, &mut wb);
    let ghost writes = wb.ops();
    proof {
        let w = choose|w: Seq<BatchOp>| #[trigger]
            indexer.exits_writes(*bundle, *settlement, w) && writes == Seq::<BatchOp>::empty() + w;
        assert(writes =~= w);
    }
    let key = perm_out_key(&settlement.tx_id, 1);
    let value = encode_root(&bundle.permission_spk_hash);
    wb.put(StateSpace::Metadata, key.as_slice(), value.as_slice());
    store.commit(wb);
    RegistryChange {
        removed: None,
        inserted: TransactionOutpoint::new(settlement.tx_id, 1),
        root: bundle.permission_spk_hash,
    }
}

/// Commits a bundle with its settlement.
pub fn handle_pairing<X: ExitIndexer, S: Store>(
    bundle: &ExitsForBundle,
    settlement: &SettlementInfo,
    indexer: &X,
    store: &mut S,
    registry: &mut Registry,
)
    ensures
        paired(
            *indexer,
            *bundle,
            *settlement,
            old(store).state(),
            final(store).state(),
            old(registry)@,
            final(registry)@,
        ),
{
    let change = commit_pairing(bundle, settlement, indexer, store);
    change.apply(registry);
}

/// A settlement was handled: a bundle parked for its state is committed with it and no longer
/// parked; without one nothing changes.
pub open spec fn settled<X: ExitIndexer>(
    indexer: X,
    settlement: SettlementInfo,
    parked: Map<[u8; 32], ExitsForBundle>,
    still_parked: Map<[u8; 32], ExitsForBundle>,
    before: StoreState,
    after: StoreState,
    registry: Map<TransactionOutpoint, [u8; 32]>,
    updated: Map<TransactionOutpoint, [u8; 32]>,
) -> bool {
    if parked.contains_key(settlement.new_state) {
        &&& still_parked == parked.remove(settlement.new_state)
        &&& paired(
            indexer,
            parked[settlement.new_state],
            settlement,
            before,
            after,
            registry,
            updated,
        )
    } else {
        &&& still_parked == parked
        &&& after == before
        &&& updated == registry
    }
}

/// Commits the bundle that is parked for the state of `settlement`, if there is one.
pub fn handle_settlement<X: ExitIndexer, S: Store>(
    parked: &mut ParkedBundles,
    settlement: &SettlementInfo,
    indexer: &X,
    store: &mut S,
    registry: &mut Registry,
)
    ensures
        settled(
            *indexer,
            *settlement,
            old(parked)@,
            final(parked)@,
            old(store).state(),
            final(store).state(),
            old(registry)@,
            final(registry)@,
        ),
{
    if let Some(bundle) = parked.remove(&settlement.new_state) {
        handle_pairing(&bundle, settlement, indexer, store, registry);
    } else {
        assert(parked@ =~= old(parked)@);
    }
}

/// `key` is that of a tracked output with root `root`.
pub open spec fn tracks_root(state: StoreState, root: [u8; 32], key: Seq<u8>) -> bool {
    has_prefix(key, PERM_OUT_PREFIX@) && state.entries.contains_pair(
        (StateSpace::Metadata, key),
        root@,
    )
}

/// The key of the first pair listed whose value is `value`.
pub open spec fn first_key(listing: Seq<(Seq<u8>, Seq<u8>)>, value: Seq<u8>) -> Option<Seq<u8>>
    decreases listing.len(),
{
    if listing.len() == 0 {
        None
    } else if listing[0].1 == value {
        Some(listing[0].0)
    } else {
        first_key(listing.drop_first(), value)
    }
}

/// The output that continues a spent one.
pub open spec fn continuation(spend: PermissionSpend) -> TransactionOutpoint {
    TransactionOutpoint { transaction_id: spend.spend_txid, index: spend.new_outpoint_index }
}

/// The writes for a spend: the spent entry goes, the continuation is tracked.
pub open spec fn spend_ops(spend: PermissionSpend, spent: Option<Seq<u8>>) -> Seq<BatchOp> {
    match spent {
        Some(key) => seq![
            BatchOp::Delete { ns: StateSpace::Metadata, key },
            track(continuation(spend), spend.new_root),
        ],
        None => seq![track(continuation(spend), spend.new_root)],
    }
}

/// The registry after a spend.
pub open spec fn spend_registry(
    registry: Map<TransactionOutpoint, [u8; 32]>,
    spend: PermissionSpend,
    spent: Option<Seq<u8>>,
) -> Map<TransactionOutpoint, [u8; 32]> {
    let left = match spent {
        Some(key) => registry.remove_keys(
            Set::new(|o: TransactionOutpoint| perm_out_bytes(o) == key),
        ),
        None => registry,
    };
    left.insert(continuation(spend), spend.new_root)
}

/// A spend was committed: one batch was committed, and it holds the indexer's writes, the deletion
/// of the first entry that `listing` has with the spent root, if there is one, and the write that
/// tracks the continuation. `listing` is how the store listed its entries under the prefix of
/// permission outputs.
pub open spec fn spend_committed<X: ExitIndexer>(
    indexer: X,
    spend: PermissionSpend,
    listing: Seq<(Seq<u8>, Seq<u8>)>,
    before: StoreState,
    after: StoreState,
) -> bool {
    &&& is_listing(listing, before, StateSpace::Metadata, PERM_OUT_PREFIX@)
    &&& exists|writes: Seq<BatchOp>| #[trigger]
        indexer.spend_writes(spend, writes) && after == committed(
            before,
            writes + spend_ops(spend, first_key(listing, spend.old_root@)),
        )
}

/// A spend was applied: it was committed, in one batch, and the registry lost the spent output and
/// holds the continuation.
pub open spec fn spend_applied<X: ExitIndexer>(
    indexer: X,
    spend: PermissionSpend,
    listing: Seq<(Seq<u8>, Seq<u8>)>,
    before: StoreState,
    after: StoreState,
    registry: Map<TransactionOutpoint, [u8; 32]>,
    updated: Map<TransactionOutpoint, [u8; 32]>,
) -> bool {
    &&& spend_committed(indexer, spend, listing, before, after)
    &&& updated == spend_registry(registry, spend, first_key(listing, spend.old_root@))
}

/// Finds the first entry listed that has root `root`.
fn find_spent<S: Store>(store: &S, root: &[u8; 32]) -> (r: Option<Vec<u8>>)
    ensures
        ({
            let listing = store.listing(StateSpace::Metadata, PERM_OUT_PREFIX@);
            &&& is_listing(listing, store.state(), StateSpace::Metadata, PERM_OUT_PREFIX@)
            &&& match r {
                Some(key) => first_key(listing, root@) == Some(key@),
                None => first_key(listing, root@) is None,
            }
        }),
{
    let entries = store.prefix_iter(StateSpace::Metadata, PERM_OUT_PREFIX.as_slice());
    let ghost listing = pairs_view(entries@);
    let mut i: usize = 0;
    assert(listing.skip(0) =~= listing);
    while i < entries.len()
        invariant
            i <= entries@.len(),
            listing == pairs_view(entries@),
            listing == store.listing(StateSpace::Metadata, PERM_OUT_PREFIX@),
            is_listing(listing, store.state(), StateSpace::Metadata, PERM_OUT_PREFIX@),
            first_key(listing, root@) == first_key(listing.skip(i as int), root@),
        decreases entries@.len() - i,
    {
        proof {
            let rest = listing.skip(i as int);
            assert(rest[0] == (entries@[i as int].0@, entries@[i as int].1@));
            assert(rest.drop_first() =~= listing.skip(i + 1));
        }
        if let Some(found) = decode_root(entries[i].1.as_slice()) {
            if equal32(&found, root) {
                return Some(copy_bytes(entries[i].0.as_slice()));
            }
            proof {
                if found@ == root@ {
                    lemma_array_view_eq(found, *root);
                }
            }
        }
        i += 1;
    }
    None
}

/// Commits a spend of a permission output to the store, and returns what is to change in the
/// registry.
pub fn commit_spend<X: ExitIndexer, S: Store>(
    spend: &PermissionSpend,
    indexer: &X,
    store: &mut S,
) -> (change: RegistryChange)
    ensures
        ({
            let listing = old(store).listing(StateSpace::Metadata, PERM_OUT_PREFIX@);
            &&& spend_committed(
                *indexer,
                *spend,
                listing,
                old(store).state(),
                final(store).state(),
            )
            &&& forall|registry: Map<TransactionOutpoint, [u8; 32]>| #[trigger]
                changed(registry, Some(change)) == spend_registry(
                    registry,
                    *spend,
                    first_key(listing, spend.old_root@),
                )
        }),
{
    let mut wb = store.write_batch();
    indexer.on_permission_spent(spend, &mut wb);
    let ghost writes = wb.ops();
    proof {
        let w = choose|w: Seq<BatchOp>| #[trigger]
            indexer.spend_writes(*spend, w) && writes == Seq::<BatchOp>::empty() + w;
        assert(writes =~= w);
    }
    let found = find_spent(store, &spend.old_root);
    let ghost spent: Option<Seq<u8>> = match &found {
        Some(key) => Some(key@),
        None => None,
    };
    let mut removed: Option<TransactionOutpoint> = None;
    if let Some(key) = &found {
        wb.delete(StateSpace::Metadata, key.as_slice());
        removed = parse_perm_out_key(key.as_slice());
    }
    let key = perm_out_key(&spend.spend_txid, spend.new_outpoint_index);
    let value = encode_root(&spend.new_root);
    wb.put(StateSpace::Metadata, key.as_slice(), value.as_slice());
    assert(wb.ops() =~= writes + spend_ops(*spend, spent));
    store.commit(wb);
    let change = RegistryChange {
        removed,
        inserted: TransactionOutpoint::new(spend.spend_txid, spend.new_outpoint_index),
        root: spend.new_root,
    };
    proof {
        assert forall|registry: Map<TransactionOutpoint, [u8; 32]>| #[trigger]
            changed(registry, Some(change)) == spend_registry(registry, *spend, spent) by {
            lemma_removed_output(registry, spent, removed);
        }
    }
    change
}

/// Removing the output that a key is for, if it is for one, leaves the outputs with other keys.
proof fn lemma_removed_output(
    registry: Map<TransactionOutpoint, [u8; 32]>,
    spent: Option<Seq<u8>>,
    removed: Option<TransactionOutpoint>,
)
    requires
        match removed {
            Some(o) => spent == Some(perm_out_bytes(o)),
            None => spent matches Some(key) ==> forall|o: TransactionOutpoint|
                key != #[trigger] perm_out_bytes(o),
        },
    ensures
        (match removed {
            Some(o) => registry.remove(o),
            None => registry,
        }) == (match spent {
            Some(key) => registry.remove_keys(
                Set::new(|o: TransactionOutpoint| perm_out_bytes(o) == key),
            ),
            None => registry,
        }),
{
    if let Some(key) = spent {
        let gone = Set::new(|o: TransactionOutpoint| perm_out_bytes(o) == key);
        assert forall|o: TransactionOutpoint| gone.contains(o) implies removed == Some(o) by {
            lemma_perm_out_injective(o, removed->0);
        }
        match removed {
            Some(o) => {
                assert(gone.contains(o));
                assert(registry.remove(o) =~= registry.remove_keys(gone));
            },
            None => {
                assert(registry =~= registry.remove_keys(gone));
            },
        }
    }
}

/// Applies a spend of a permission output.
pub fn handle_permission_spend<X: ExitIndexer, S: Store>(
    spend: &PermissionSpend,
    indexer: &X,
    store: &mut S,
    registry: &mut Registry,
)
    ensures
        spend_applied(
            *indexer,
            *spend,
            old(store).listing(StateSpace::Metadata, PERM_OUT_PREFIX@),
            old(store).state(),
            final(store).state(),
            old(registry)@,
            final(registry)@,
        ),
{
    let change = commit_spend(spend, indexer, store);
    change.apply(registry);
}

/// What the exit indexer is told: an item of one of its three channels, or that the channel was
/// closed.
#[derive(Clone, Debug)]
pub enum ExitEvent {
    /// A bundle whose exits await settlement.
    Bundle(Option<ExitsForBundle>),
    /// A settlement seen on the base chain.
    Settlement(Option<SettlementInfo>),
    /// A spend of a permission output seen on the base chain.
    Spend(Option<PermissionSpend>),
}

/// An event was handled. A bundle is parked; a settlement and a spend are handled as such; when a
/// channel is closed nothing changes and the indexer stops.
pub open spec fn event_handled<X: ExitIndexer>(
    indexer: X,
    event: ExitEvent,
    go_on: bool,
    listing: Seq<(Seq<u8>, Seq<u8>)>,
    parked: Map<[u8; 32], ExitsForBundle>,
    still_parked: Map<[u8; 32], ExitsForBundle>,
    before: StoreState,
    after: StoreState,
    registry: Map<TransactionOutpoint, [u8; 32]>,
    updated: Map<TransactionOutpoint, [u8; 32]>,
) -> bool {
    match event {
        ExitEvent::Bundle(Some(bundle)) => {
            &&& go_on
            &&& still_parked == parked.insert(bundle.new_state, bundle)
            &&& after == before
            &&& updated == registry
        },
        ExitEvent::Settlement(Some(settlement)) => {
            &&& go_on
            &&& settled(
                indexer,
                settlement,
                parked,
                still_parked,
                before,
                after,
                registry,
                updated,
            )
        },
        ExitEvent::Spend(Some(spend)) => {
            &&& go_on
            &&& still_parked == parked
            &&& spend_applied(indexer, spend, listing, before, after, registry, updated)
        },
        _ => {
            &&& !go_on
            &&& still_parked == parked
            &&& after == before
            &&& updated == registry
        },
    }
}

/// Handles one event but for the registry: returns whether to go on, and what is to change in the
/// registry. The registry need not be held while the indexer's hooks run.
pub fn exit_indexer_commit<X: ExitIndexer, S: Store>(
    parked: &mut ParkedBundles,
    event: ExitEvent,
    indexer: &X,
    store: &mut S,
) -> (r: (bool, Option<RegistryChange>))
    ensures
        forall|registry: Map<TransactionOutpoint, [u8; 32]>|
            #![trigger changed(registry, r.1)]
            event_handled(
                *indexer,
                event,
                r.0,
                old(store).listing(StateSpace::Metadata, PERM_OUT_PREFIX@),
                old(parked)@,
                final(parked)@,
                old(store).state(),
                final(store).state(),
                registry,
                changed(registry, r.1),
            ),
{
    match event {
        ExitEvent::Bundle(Some(bundle)) => {
            parked.insert(bundle.new_state, bundle);
            (true, None)
        },
        ExitEvent::Settlement(Some(settlement)) => {
            if let Some(bundle) = parked.remove(&settlement.new_state) {
                (true, Some(commit_pairing(&bundle, &settlement, indexer, store)))
            } else {
                assert(parked@ =~= old(parked)@);
                (true, None)
            }
        },
        ExitEvent::Spend(Some(spend)) => (true, Some(commit_spend(&spend, indexer, store))),
        _ => (false, None),
    }
}

/// Handles one event. Returns whether to go on: the indexer stops when a channel is closed.
pub fn exit_indexer_step<X: ExitIndexer, S: Store>(
    parked: &mut ParkedBundles,
    event: ExitEvent,
    indexer: &X,
    store: &mut S,
    registry: &mut Registry,
) -> (go_on: bool)
    ensures
        event_handled(
            *indexer,
            event,
            go_on,
            old(store).listing(StateSpace::Metadata, PERM_OUT_PREFIX@),
            old(parked)@,
            final(parked)@,
            old(store).state(),
            final(store).state(),
            old(registry)@,
            final(registry)@,
        ),
{
    let (go_on, change) = exit_indexer_commit(parked, event, indexer, store);
    assert(change is None ==> changed(registry@, change) == registry@);
    if let Some(c) = &change {
        c.apply(registry);
    }
    go_on
}

/// `op` touches no metadata key that begins with the prefix of permission outputs.
pub open spec fn spares_outputs(op: BatchOp) -> bool {
    match op {
        BatchOp::Put { ns, key, .. } => ns != StateSpace::Metadata || !has_prefix(
            key,
            PERM_OUT_PREFIX@,
        ),
        BatchOp::Delete { ns, key } => ns != StateSpace::Metadata || !has_prefix(
            key,
            PERM_OUT_PREFIX@,
        ),
        BatchOp::DeleteRange { ns, start, end } => ns != StateSpace::Metadata || forall|
            key: Seq<u8>,
        | #[trigger]
            in_range(key, start, end) ==> !has_prefix(key, PERM_OUT_PREFIX@),
        BatchOp::PutNode { .. } => true,
    }
}

/// None of `ops` touches a metadata key that begins with the prefix of permission outputs.
pub open spec fn all_spare_outputs(ops: Seq<BatchOp>) -> bool {
    forall|i: int| 0 <= i < ops.len() ==> spares_outputs(#[trigger] ops[i])
}

/// Operations that spare the permission outputs keep every metadata entry under their prefix.
proof fn lemma_entries_spared(state: StoreState, ops: Seq<BatchOp>, key: Seq<u8>)
    requires
        all_spare_outputs(ops),
        has_prefix(key, PERM_OUT_PREFIX@),
    ensures
        ({
            let k = (StateSpace::Metadata, key);
            let end = apply_ops(state, ops);
            &&& end.entries.contains_key(k) == state.entries.contains_key(k)
            &&& state.entries.contains_key(k) ==> end.entries[k] == state.entries[k]
        }),
    decreases ops.len(),
{
    if ops.len() > 0 {
        let fewer = ops.drop_last();
        assert forall|i: int| 0 <= i < fewer.len() implies spares_outputs(#[trigger] fewer[i]) by {
            assert(spares_outputs(ops[i]));
        }
        lemma_entries_spared(state, fewer, key);
        assert(spares_outputs(ops[ops.len() - 1]));
    }
}

/// Operations that spare the permission outputs keep what the store tracks.
proof fn lemma_outputs_spared(state: StoreState, ops: Seq<BatchOp>)
    requires
        all_spare_outputs(ops),
    ensures
        tracked_outputs(apply_ops(state, ops)) == tracked_outputs(state),
        forall|root: [u8; 32], key: Seq<u8>| #[trigger]
            tracks_root(apply_ops(state, ops), root, key) == tracks_root(state, root, key),
{
    let end = apply_ops(state, ops);
    assert forall|root: [u8; 32], key: Seq<u8>| #[trigger]
        tracks_root(end, root, key) == tracks_root(state, root, key) by {
        if has_prefix(key, PERM_OUT_PREFIX@) {
            lemma_entries_spared(state, ops, key);
        }
    }
    assert forall|o: TransactionOutpoint|
        #![trigger perm_out_bytes(o)]
        ({
            let k = (StateSpace::Metadata, perm_out_bytes(o));
            &&& end.entries.contains_key(k) == state.entries.contains_key(k)
            &&& state.entries.contains_key(k) ==> end.entries[k] == state.entries[k]
        }) by {
        lemma_perm_out_bytes(o);
        lemma_entries_spared(state, ops, perm_out_bytes(o));
    }
    assert(tracked_outputs(end) =~= tracked_outputs(state));
}

/// Tracking an output adds it to those that the store tracks.
proof fn lemma_track(state: StoreState, o: TransactionOutpoint, root: [u8; 32])
    ensures
        tracked_outputs(apply_op(state, track(o, root))) == tracked_outputs(state).insert(o, root),
{
    let end = apply_op(state, track(o, root));
    let want = tracked_outputs(state).insert(o, root);
    lemma_array32(root);
    assert forall|q: TransactionOutpoint| q != o implies perm_out_bytes(q) != perm_out_bytes(o) by {
        if perm_out_bytes(q) == perm_out_bytes(o) {
            lemma_perm_out_injective(q, o);
        }
    }
    assert(tracked_outputs(end) =~= want);
}

/// Deleting a key drops its output, if it is one's, from those that the store tracks.
proof fn lemma_untrack(state: StoreState, key: Seq<u8>)
    ensures
        tracked_outputs(apply_op(state, BatchOp::Delete { ns: StateSpace::Metadata, key }))
            == tracked_outputs(state).remove_keys(
            Set::new(|o: TransactionOutpoint| perm_out_bytes(o) == key),
        ),
{
    let end = apply_op(state, BatchOp::Delete { ns: StateSpace::Metadata, key });
    assert(tracked_outputs(end) =~= tracked_outputs(state).remove_keys(
        Set::new(|o: TransactionOutpoint| perm_out_bytes(o) == key),
    ));
}

/// Operations in two parts take effect one part after the other.
proof fn lemma_apply_in_parts(state: StoreState, a: Seq<BatchOp>, b: Seq<BatchOp>)
    ensures
        apply_ops(state, a + b) == apply_ops(apply_ops(state, a), b),
    decreases b.len(),
{
    if b.len() == 0 {
        assert(a + b =~= a);
    } else {
        lemma_apply_in_parts(state, a, b.drop_last());
        assert((a + b).drop_last() =~= a + b.drop_last());
    }
}

/// A registry that mirrors the store before a bundle is committed mirrors it after: loading the
/// registry at the next start gives the same. The indexer's own writes are to spare the metadata
/// keys of permission outputs.
pub proof fn lemma_pairing_keeps_mirror<X: ExitIndexer>(
    indexer: X,
    bundle: ExitsForBundle,
    settlement: SettlementInfo,
    before: StoreState,
    after: StoreState,
    updated: Map<TransactionOutpoint, [u8; 32]>,
)
    requires
        paired(indexer, bundle, settlement, before, after, tracked_outputs(before), updated),
        forall|writes: Seq<BatchOp>| #[trigger]
            indexer.exits_writes(bundle, settlement, writes) ==> all_spare_outputs(writes),
    ensures
        updated == tracked_outputs(after),
{
    let put = track(settled_output(settlement), bundle.permission_spk_hash);
    let writes = choose|writes: Seq<BatchOp>| #[trigger]
        indexer.exits_writes(bundle, settlement, writes) && after == committed(
            before,
            writes.push(put),
        );
    lemma_outputs_spared(before, writes);
    assert(writes.push(put).drop_last() =~= writes);
    lemma_track(
        apply_ops(before, writes),
        settled_output(settlement),
        bundle.permission_spk_hash,
    );
}

/// `state` without the entry of a spent output, if there is one.
spec fn without_spent(state: StoreState, spent: Option<Seq<u8>>) -> StoreState {
    match spent {
        Some(key) => apply_op(state, BatchOp::Delete { ns: StateSpace::Metadata, key }),
        None => state,
    }
}

/// What a spend does to the entries, one step after another: the indexer's writes, which are
/// returned, then the deletion, then the write that tracks the continuation.
proof fn lemma_spend_steps<X: ExitIndexer>(
    indexer: X,
    spend: PermissionSpend,
    listing: Seq<(Seq<u8>, Seq<u8>)>,
    before: StoreState,
    after: StoreState,
    registry: Map<TransactionOutpoint, [u8; 32]>,
    updated: Map<TransactionOutpoint, [u8; 32]>,
) -> (writes: Seq<BatchOp>)
    requires
        spend_applied(indexer, spend, listing, before, after, registry, updated),
    ensures
        indexer.spend_writes(spend, writes),
        after.entries == apply_op(
            without_spent(apply_ops(before, writes), first_key(listing, spend.old_root@)),
            track(continuation(spend), spend.new_root),
        ).entries,
{
    let spent = first_key(listing, spend.old_root@);
    let ops = spend_ops(spend, spent);
    let writes = choose|writes: Seq<BatchOp>| #[trigger]
        indexer.spend_writes(spend, writes) && after == committed(before, writes + ops);
    let mid = apply_ops(before, writes);
    lemma_apply_in_parts(before, writes, ops);
    assert(apply_ops(mid, Seq::<BatchOp>::empty()) == mid);
    match spent {
        Some(key) => {
            let delete = BatchOp::Delete { ns: StateSpace::Metadata, key };
            assert(ops.drop_last() =~= seq![delete]);
            assert(seq![delete].drop_last() =~= Seq::<BatchOp>::empty());
            assert(apply_ops(mid, seq![delete]) == apply_op(mid, delete));
        },
        None => {
            assert(ops.drop_last() =~= Seq::<BatchOp>::empty());
        },
    }
    writes
}

/// The first key listed with a value has that value and no pair before it has; where there is
/// none, no pair listed has the value.
pub proof fn lemma_first_key(listing: Seq<(Seq<u8>, Seq<u8>)>, value: Seq<u8>)
    ensures
        match first_key(listing, value) {
            Some(key) => exists|i: int|
                {
                    &&& 0 <= i < listing.len()
                    &&& #[trigger] listing[i] == (key, value)
                    &&& forall|j: int| 0 <= j < i ==> (#[trigger] listing[j]).1 != value
                },
            None => forall|j: int| 0 <= j < listing.len() ==> (#[trigger] listing[j]).1 != value,
        },
    decreases listing.len(),
{
    if listing.len() > 0 {
        if listing[0].1 == value {
            assert(listing[0] == (listing[0].0, value));
        } else {
            let rest = listing.drop_first();
            lemma_first_key(rest, value);
            match first_key(rest, value) {
                Some(key) => {
                    let i = choose|i: int|
                        {
                            &&& 0 <= i < rest.len()
                            &&& #[trigger] rest[i] == (key, value)
                            &&& forall|j: int| 0 <= j < i ==> (#[trigger] rest[j]).1 != value
                        };
                    assert(listing[i + 1] == (key, value));
                    assert forall|j: int| 0 <= j < i + 1 implies (#[trigger] listing[j]).1
                        != value by {
                        if j > 0 {
                            assert(rest[j - 1].1 != value);
                        }
                    }
                },
                None => {
                    assert forall|j: int| 0 <= j < listing.len() implies (#[trigger] listing[j]).1
                        != value by {
                        if j > 0 {
                            assert(rest[j - 1].1 != value);
                        }
                    }
                },
            }
        }
    }
}

/// The spent key is that of an entry with the root, and there is none only where no entry has it.
pub proof fn lemma_spent_key_tracks(
    listing: Seq<(Seq<u8>, Seq<u8>)>,
    state: StoreState,
    root: [u8; 32],
)
    requires
        is_listing(listing, state, StateSpace::Metadata, PERM_OUT_PREFIX@),
    ensures
        match first_key(listing, root@) {
            Some(key) => tracks_root(state, root, key),
            None => forall|key: Seq<u8>| !#[trigger] tracks_root(state, root, key),
        },
{
    lemma_first_key(listing, root@);
    if first_key(listing, root@) is None {
        assert forall|key: Seq<u8>| !#[trigger] tracks_root(state, root, key) by {
            if tracks_root(state, root, key) {
                assert(state.entries.contains_key((StateSpace::Metadata, key)));
                let j = choose|j: int| 0 <= j < listing.len() && (#[trigger] listing[j]).0 == key;
                assert(listing[j].1 == root@);
            }
        }
    }
}

/// A registry that mirrors the store before a spend is applied mirrors it after: loading the
/// registry at the next start gives the same. The indexer's own writes are to spare the metadata
/// keys of permission outputs.
pub proof fn lemma_spend_keeps_mirror<X: ExitIndexer>(
    indexer: X,
    spend: PermissionSpend,
    listing: Seq<(Seq<u8>, Seq<u8>)>,
    before: StoreState,
    after: StoreState,
    updated: Map<TransactionOutpoint, [u8; 32]>,
)
    requires
        spend_applied(indexer, spend, listing, before, after, tracked_outputs(before), updated),
        forall|writes: Seq<BatchOp>| #[trigger]
            indexer.spend_writes(spend, writes) ==> all_spare_outputs(writes),
    ensures
        updated == tracked_outputs(after),
{
    let writes = lemma_spend_steps(
        indexer,
        spend,
        listing,
        before,
        after,
        tracked_outputs(before),
        updated,
    );
    lemma_outputs_spared(before, writes);
    let mid = apply_ops(before, writes);
    let spent = first_key(listing, spend.old_root@);
    if let Some(key) = spent {
        lemma_untrack(mid, key);
    }
    lemma_track(without_spent(mid, spent), continuation(spend), spend.new_root);
}

/// A spend takes one entry and no other: every entry under the prefix of permission outputs stays
/// as it is, those with the spent root that are listed later included, but for the spent one and
/// the continuation's.
pub proof fn lemma_spend_spares_others<X: ExitIndexer>(
    indexer: X,
    spend: PermissionSpend,
    listing: Seq<(Seq<u8>, Seq<u8>)>,
    before: StoreState,
    after: StoreState,
    registry: Map<TransactionOutpoint, [u8; 32]>,
    updated: Map<TransactionOutpoint, [u8; 32]>,
    root: [u8; 32],
    key: Seq<u8>,
)
    requires
        spend_applied(indexer, spend, listing, before, after, registry, updated),
        forall|writes: Seq<BatchOp>| #[trigger]
            indexer.spend_writes(spend, writes) ==> all_spare_outputs(writes),
        first_key(listing, spend.old_root@) != Some(key),
        key != perm_out_bytes(continuation(spend)),
    ensures
        tracks_root(after, root, key) == tracks_root(before, root, key),
{
    let writes = lemma_spend_steps(indexer, spend, listing, before, after, registry, updated);
    lemma_outputs_spared(before, writes);
    assert(tracks_root(apply_ops(before, writes), root, key) == tracks_root(before, root, key));
}

/// After a spend no entry has the spent root, where at most one entry had it before and the
/// continuation has another root.
pub proof fn lemma_spent_root_is_gone<X: ExitIndexer>(
    indexer: X,
    spend: PermissionSpend,
    listing: Seq<(Seq<u8>, Seq<u8>)>,
    before: StoreState,
    after: StoreState,
    registry: Map<TransactionOutpoint, [u8; 32]>,
    updated: Map<TransactionOutpoint, [u8; 32]>,
    key: Seq<u8>,
)
    requires
        spend_applied(indexer, spend, listing, before, after, registry, updated),
        forall|writes: Seq<BatchOp>| #[trigger]
            indexer.spend_writes(spend, writes) ==> all_spare_outputs(writes),
        spend.old_root != spend.new_root,
        forall|k: Seq<u8>| #[trigger] tracks_root(before, spend.old_root, k) ==> k == key,
    ensures
        forall|k: Seq<u8>| !#[trigger] tracks_root(after, spend.old_root, k),
{
    let writes = lemma_spend_steps(indexer, spend, listing, before, after, registry, updated);
    lemma_outputs_spared(before, writes);
    lemma_spent_key_tracks(listing, before, spend.old_root);
    if spend.old_root@ == spend.new_root@ {
        lemma_array_view_eq(spend.old_root, spend.new_root);
    }
    let mid = apply_ops(before, writes);
    assert forall|k: Seq<u8>| !#[trigger] tracks_root(after, spend.old_root, k) by {
        if tracks_root(after, spend.old_root, k) {
            assert(k != perm_out_bytes(continuation(spend)));
            assert(tracks_root(mid, spend.old_root, k));
            assert(tracks_root(before, spend.old_root, k));
        }
    }
}

/// A registry that mirrors the store before a settlement is handled mirrors it after. The
/// indexer's own writes are to spare the metadata keys of permission outputs.
pub proof fn lemma_settlement_keeps_mirror<X: ExitIndexer>(
    indexer: X,
    settlement: SettlementInfo,
    parked: Map<[u8; 32], ExitsForBundle>,
    still_parked: Map<[u8; 32], ExitsForBundle>,
    before: StoreState,
    after: StoreState,
    updated: Map<TransactionOutpoint, [u8; 32]>,
)
    requires
        settled(
            indexer,
            settlement,
            parked,
            still_parked,
            before,
            after,
            tracked_outputs(before),
            updated,
        ),
        forall|bundle: ExitsForBundle, writes: Seq<BatchOp>| #[trigger]
            indexer.exits_writes(bundle, settlement, writes) ==> all_spare_outputs(writes),
    ensures
        updated == tracked_outputs(after),
        !still_parked.contains_key(settlement.new_state),
{
    if parked.contains_key(settlement.new_state) {
        lemma_pairing_keeps_mirror(
            indexer,
            parked[settlement.new_state],
            settlement,
            before,
            after,
            updated,
        );
    }
}

/// Once a bundle is committed, the store holds its root under the key of the permission output
/// that the settlement creates.
pub proof fn lemma_pairing_is_stored<X: ExitIndexer>(
    indexer: X,
    bundle: ExitsForBundle,
    settlement: SettlementInfo,
    before: StoreState,
    after: StoreState,
    registry: Map<TransactionOutpoint, [u8; 32]>,
    updated: Map<TransactionOutpoint, [u8; 32]>,
)
    requires
        paired(indexer, bundle, settlement, before, after, registry, updated),
    ensures
        after.entries.contains_pair(
            (StateSpace::Metadata, perm_out_bytes(settled_output(settlement))),
            bundle.permission_spk_hash@,
        ),
        updated.contains_pair(settled_output(settlement), bundle.permission_spk_hash),
{
    let put = track(settled_output(settlement), bundle.permission_spk_hash);
    let writes = choose|writes: Seq<BatchOp>| #[trigger]
        indexer.exits_writes(bundle, settlement, writes) && after == committed(
            before,
            writes.push(put),
        );
    lemma_last_op_prevails(
        before,
        writes,
        StateSpace::Metadata,
        perm_out_bytes(settled_output(settlement)),
        bundle.permission_spk_hash@,
    );
}

/// Once a spend is applied, the store and the registry hold the new root under the output that
/// continues the spent one.
pub proof fn lemma_continuation_is_stored<X: ExitIndexer>(
    indexer: X,
    spend: PermissionSpend,
    listing: Seq<(Seq<u8>, Seq<u8>)>,
    before: StoreState,
    after: StoreState,
    registry: Map<TransactionOutpoint, [u8; 32]>,
    updated: Map<TransactionOutpoint, [u8; 32]>,
)
    requires
        spend_applied(indexer, spend, listing, before, after, registry, updated),
    ensures
        after.entries.contains_pair(
            (StateSpace::Metadata, perm_out_bytes(continuation(spend))),
            spend.new_root@,
        ),
        updated.contains_pair(continuation(spend), spend.new_root),
{
    let _ = lemma_spend_steps(indexer, spend, listing, before, after, registry, updated);
}

} // verus!
