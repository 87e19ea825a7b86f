//! The index of permission outputs.

use std::sync::Mutex;

use vprogs::assoc::AssocMap;
use vprogs::exit_index::{
    exit_indexer_commit, exit_indexer_step, handle_pairing, handle_permission_spend, handle_settlement, load_registry,
    load_registry_with_skipped, parse_perm_out_key, perm_out_key, ExitEvent, ExitIndexer, ExitsForBundle, ParkedBundles,
    Registry, PERM_OUT_PREFIX,
};
use vprogs::indexer::NoIndex;
use vprogs::l1::{PermissionSpend, SettlementInfo, TransactionOutpoint};
use vprogs::storage::{MemoryStore, StateSpace, Store, WriteBatch};

struct FakeExitIndexer {
    committed: Mutex<Vec<(ExitsForBundle, SettlementInfo)>>,
    spends: Mutex<Vec<PermissionSpend>>,
}

impl FakeExitIndexer {
    fn new() -> Self {
        Self { committed: Mutex::new(Vec::new()), spends: Mutex::new(Vec::new()) }
    }
}

impl ExitIndexer for FakeExitIndexer {
    fn on_exits_committed<W: WriteBatch>(
        &self,
        bundle: &ExitsForBundle,
        settlement: &SettlementInfo,
        _wb: &mut W,
    ) {
        self.committed.lock().unwrap().push((bundle.clone(), *settlement));
    }

    fn on_permission_spent<W: WriteBatch>(&self, spend: &PermissionSpend, _wb: &mut W) {
        self.spends.lock().unwrap().push(spend.clone());
    }
}

/// Writes an entry of its own with each hook.
struct WritingIndexer;

impl ExitIndexer for WritingIndexer {
    fn on_exits_committed<W: WriteBatch>(
        &self,
        bundle: &ExitsForBundle,
        _settlement: &SettlementInfo,
        wb: &mut W,
    ) {
        wb.put(StateSpace::Index, b"exits", &bundle.new_state);
    }

    fn on_permission_spent<W: WriteBatch>(&self, spend: &PermissionSpend, wb: &mut W) {
        wb.put(StateSpace::Index, b"spend", &spend.spend_txid);
        wb.put(StateSpace::Metadata, b"last_spend", &spend.spend_txid);
    }
}

fn bundle(new_state: u8, root: u8) -> ExitsForBundle {
    ExitsForBundle {
        new_state: [new_state; 32],
        permission_spk_hash: [root; 32],
        leaves: vec![],
    }
}

fn spend(old_root: u8, new_root: u8, txid: u8) -> PermissionSpend {
    PermissionSpend {
        covenant_id: [0x55; 32],
        old_root: [old_root; 32],
        old_unclaimed: 2,
        depth: 1,
        leaf_index: 0,
        leaf_spk_bytes: vec![0x01],
        leaf_amount: 100,
        deduct: 50,
        new_root: [new_root; 32],
        spend_txid: [txid; 32],
        new_outpoint_index: 1,
    }
}

#[test]
fn pairing_matches_and_wrong_state_ignored() {
    let mut store = MemoryStore::new();
    let indexer = FakeExitIndexer::new();
    let mut registry: Registry = AssocMap::new();

    let bundle = bundle(0x11, 0x22);

    let mut parked: ParkedBundles = AssocMap::new();
    parked.insert(bundle.new_state, bundle.clone());

    // Wrong-state settlement is ignored; bundle stays parked.
    let wrong_settlement = SettlementInfo { new_state: [0x99; 32], ..Default::default() };
    handle_settlement(&mut parked, &wrong_settlement, &indexer, &mut store, &mut registry);
    assert_eq!(parked.len(), 1);
    assert!(parked.contains_key(&bundle.new_state));
    assert!(indexer.committed.lock().unwrap().is_empty());
    assert!(registry.is_empty());

    // Matching settlement commits bundle, inserts into registry, writes metadata.
    let matching_settlement = SettlementInfo {
        tx_id: [0xaa; 32],
        new_state: [0x11; 32],
        ..Default::default()
    };
    handle_settlement(&mut parked, &matching_settlement, &indexer, &mut store, &mut registry);
    assert!(parked.is_empty());
    assert_eq!(indexer.committed.lock().unwrap().len(), 1);

    let outpoint = TransactionOutpoint::new(matching_settlement.tx_id, 1);
    assert_eq!(registry.get(&outpoint), Some(&[0x22; 32]));

    let key = perm_out_key(&matching_settlement.tx_id, 1);
    let val = store.get(StateSpace::Metadata, &key).expect("metadata entry present");
    let decoded: [u8; 32] = borsh::from_slice(&val).unwrap();
    assert_eq!(decoded, [0x22; 32]);
}

#[test]
fn permission_spend_updates_registry_mirror_and_startup_loads() {
    let mut store = MemoryStore::new();
    let indexer = FakeExitIndexer::new();
    let mut registry: Registry = AssocMap::new();

    let initial_bundle = bundle(0x11, 0x22);
    let initial_settlement = SettlementInfo {
        tx_id: [0xaa; 32],
        new_state: [0x11; 32],
        ..Default::default()
    };
    handle_pairing(&initial_bundle, &initial_settlement, &indexer, &mut store, &mut registry);

    let spend = spend(0x22, 0x33, 0xbb);
    handle_permission_spend(&spend, &indexer, &mut store, &mut registry);
    assert_eq!(indexer.spends.lock().unwrap().len(), 1);

    // Old outpoint removed from registry and metadata.
    let old_outpoint = TransactionOutpoint::new(initial_settlement.tx_id, 1);
    assert!(!registry.contains_key(&old_outpoint));
    let old_key = perm_out_key(&initial_settlement.tx_id, 1);
    assert!(store.get(StateSpace::Metadata, &old_key).is_none());

    // Continuation outpoint inserted in registry and metadata.
    let cont_txid = spend.spend_txid;
    let cont_outpoint = TransactionOutpoint::new(cont_txid, spend.new_outpoint_index);
    assert_eq!(registry.get(&cont_outpoint), Some(&[0x33; 32]));
    let cont_key = perm_out_key(&cont_txid, spend.new_outpoint_index);
    let val = store.get(StateSpace::Metadata, &cont_key).expect("continuation present");
    let decoded: [u8; 32] = borsh::from_slice(&val).unwrap();
    assert_eq!(decoded, [0x33; 32]);

    // Startup load restores the persisted entries.
    let recovered = load_registry(&store);
    assert_eq!(recovered.len(), 1);
    assert_eq!(recovered.get(&cont_outpoint), Some(&[0x33; 32]));
}

#[test]
fn run_exit_indexer_loop_e2e() {
    let mut store = MemoryStore::new();
    let indexer = FakeExitIndexer::new();
    let mut registry: Registry = AssocMap::new();
    let mut parked: ParkedBundles = AssocMap::new();

    let settlement =
        SettlementInfo { tx_id: [0xaa; 32], new_state: [0x11; 32], ..Default::default() };
    let outpoint = TransactionOutpoint::new(settlement.tx_id, 1);
    let spend = spend(0x22, 0x33, 0xbb);
    let cont_outpoint = TransactionOutpoint::new(spend.spend_txid, spend.new_outpoint_index);

    // 1. An exit bundle is parked.
    let event = ExitEvent::Bundle(Some(bundle(0x11, 0x22)));
    assert!(exit_indexer_step(&mut parked, event, &indexer, &mut store, &mut registry));
    assert_eq!(parked.len(), 1);

    // 2. The matching settlement commits it.
    let event = ExitEvent::Settlement(Some(settlement));
    assert!(exit_indexer_step(&mut parked, event, &indexer, &mut store, &mut registry));
    assert_eq!(registry.get(&outpoint), Some(&[0x22; 32]));
    assert_eq!(indexer.committed.lock().unwrap().len(), 1);

    // 3. A spend moves it on.
    let event = ExitEvent::Spend(Some(spend));
    assert!(exit_indexer_step(&mut parked, event, &indexer, &mut store, &mut registry));
    assert_eq!(registry.get(&cont_outpoint), Some(&[0x33; 32]));
    assert!(!registry.contains_key(&outpoint));
    assert_eq!(indexer.spends.lock().unwrap().len(), 1);

    // 4. A closed channel ends the loop.
    for event in [ExitEvent::Bundle(None), ExitEvent::Settlement(None), ExitEvent::Spend(None)] {
        assert!(!exit_indexer_step(&mut parked, event, &indexer, &mut store, &mut registry));
    }
    assert_eq!(registry.len(), 1);
}

#[test]
fn two_back_to_back_settlements_both_commit() {
    let mut store = MemoryStore::new();
    let indexer = FakeExitIndexer::new();
    let mut registry: Registry = AssocMap::new();
    let mut parked: ParkedBundles = AssocMap::new();

    let s1 = SettlementInfo { tx_id: [0xa1; 32], new_state: [0x11; 32], ..Default::default() };
    let s2 = SettlementInfo { tx_id: [0xa2; 32], new_state: [0x12; 32], ..Default::default() };
    for event in [
        ExitEvent::Bundle(Some(bundle(0x11, 0x21))),
        ExitEvent::Bundle(Some(bundle(0x12, 0x22))),
        ExitEvent::Settlement(Some(s1)),
        ExitEvent::Settlement(Some(s2)),
    ] {
        assert!(exit_indexer_step(&mut parked, event, &indexer, &mut store, &mut registry));
    }

    let out1 = TransactionOutpoint::new(s1.tx_id, 1);
    let out2 = TransactionOutpoint::new(s2.tx_id, 1);
    assert_eq!(registry.get(&out1), Some(&[0x21; 32]));
    assert_eq!(registry.get(&out2), Some(&[0x22; 32]));
    assert_eq!(indexer.committed.lock().unwrap().len(), 2);
}

#[test]
fn key_layout_is_exact_and_parses_back() {
    let key = perm_out_key(&[0xcd; 32], 0x0102_0304);
    let mut expected = b"perm_out".to_vec();
    expected.extend_from_slice(&[0xcd; 32]);
    expected.extend_from_slice(&[1, 2, 3, 4]);
    assert_eq!(key.to_vec(), expected);
    assert_eq!(&PERM_OUT_PREFIX, b"perm_out");
    assert_eq!(
        parse_perm_out_key(&key),
        Some(TransactionOutpoint::new([0xcd; 32], 0x0102_0304))
    );
    assert_eq!(
        parse_perm_out_key(&perm_out_key(&[0; 32], u32::MAX)),
        Some(TransactionOutpoint::new([0; 32], u32::MAX))
    );
}

#[test]
fn other_keys_do_not_parse() {
    let key = perm_out_key(&[1; 32], 1);
    assert_eq!(parse_perm_out_key(&key[..43]), None);
    let mut long = key.to_vec();
    long.push(0);
    assert_eq!(parse_perm_out_key(&long), None);
    let mut other = key.to_vec();
    other[0] = b'P';
    assert_eq!(parse_perm_out_key(&other), None);
    assert_eq!(parse_perm_out_key(b""), None);
}

#[test]
fn loading_passes_over_what_it_cannot_decode() {
    let mut store = MemoryStore::new();
    let mut wb = store.write_batch();
    wb.put(StateSpace::Metadata, &perm_out_key(&[1; 32], 1), &[7; 32]);
    wb.put(StateSpace::Metadata, &perm_out_key(&[2; 32], 1), &[7; 31]);
    wb.put(StateSpace::Metadata, &perm_out_key(&[4; 32], 1), &[7; 33]);
    wb.put(StateSpace::Metadata, b"perm_out_other", &[7; 32]);
    wb.put(StateSpace::Index, &perm_out_key(&[3; 32], 1), &[7; 32]);
    store.commit(wb);
    let registry = load_registry(&store);
    assert_eq!(registry.len(), 1);
    assert_eq!(registry.get(&TransactionOutpoint::new([1; 32], 1)), Some(&[7; 32]));

    let (registry, skipped) = load_registry_with_skipped(&store);
    assert_eq!(registry.len(), 1);
    assert_eq!(skipped.outpoints, vec![b"perm_out_other".to_vec()]);
    assert_eq!(
        skipped.roots,
        vec![perm_out_key(&[2; 32], 1).to_vec(), perm_out_key(&[4; 32], 1).to_vec()]
    );
}

#[test]
fn nothing_is_skipped_in_a_sound_store() {
    let mut store = MemoryStore::new();
    let mut wb = store.write_batch();
    wb.put(StateSpace::Metadata, &perm_out_key(&[1; 32], 1), &[7; 32]);
    wb.put(StateSpace::Metadata, b"other", &[7; 3]);
    store.commit(wb);
    let (registry, skipped) = load_registry_with_skipped(&store);
    assert_eq!(registry.len(), 1);
    assert!(skipped.outpoints.is_empty());
    assert!(skipped.roots.is_empty());
}

#[test]
fn of_several_entries_with_the_root_the_first_listed_goes() {
    let mut store = MemoryStore::new();
    let mut registry: Registry = AssocMap::new();
    for (tx, state) in [(0xa1, 1), (0xa2, 2), (0xa3, 3)] {
        let settlement =
            SettlementInfo { tx_id: [tx; 32], new_state: [state; 32], ..Default::default() };
        let root = if tx == 0xa1 { 0x21 } else { 0x22 };
        handle_pairing(&bundle(state, root), &settlement, &NoIndex, &mut store, &mut registry);
    }
    let listed = store.prefix_iter(StateSpace::Metadata, b"perm_out");
    let holders: Vec<Vec<u8>> =
        listed.into_iter().filter(|e| e.1 == vec![0x22; 32]).map(|e| e.0).collect();
    assert_eq!(holders.len(), 2);

    handle_permission_spend(&spend(0x22, 0x33, 0xbb), &NoIndex, &mut store, &mut registry);
    assert_eq!(store.get(StateSpace::Metadata, &holders[0]), None);
    assert_eq!(store.get(StateSpace::Metadata, &holders[1]), Some(vec![0x22; 32]));
    assert!(!registry.contains_key(&parse_perm_out_key(&holders[0]).unwrap()));
    assert_eq!(registry.get(&parse_perm_out_key(&holders[1]).unwrap()), Some(&[0x22; 32]));
    assert_eq!(registry.get(&TransactionOutpoint::new([0xa1; 32], 1)), Some(&[0x21; 32]));
    assert_eq!(registry.len(), 3);
    assert_eq!(load_registry(&store).len(), 3);
}

#[test]
fn spend_of_an_unknown_root_only_adds_the_continuation() {
    let mut store = MemoryStore::new();
    let mut registry: Registry = AssocMap::new();
    let settlement =
        SettlementInfo { tx_id: [0xaa; 32], new_state: [0x11; 32], ..Default::default() };
    handle_pairing(&bundle(0x11, 0x22), &settlement, &NoIndex, &mut store, &mut registry);
    handle_permission_spend(&spend(0x77, 0x33, 0xbb), &NoIndex, &mut store, &mut registry);
    assert_eq!(registry.len(), 2);
    assert_eq!(load_registry(&store).len(), 2);
    assert_eq!(registry.get(&TransactionOutpoint::new([0xaa; 32], 1)), Some(&[0x22; 32]));
    assert_eq!(registry.get(&TransactionOutpoint::new([0xbb; 32], 1)), Some(&[0x33; 32]));
}

#[test]
fn writes_of_the_indexer_are_committed_too() {
    let mut store = MemoryStore::new();
    let mut registry: Registry = AssocMap::new();
    let settlement =
        SettlementInfo { tx_id: [0xaa; 32], new_state: [0x11; 32], ..Default::default() };
    handle_pairing(&bundle(0x11, 0x22), &settlement, &WritingIndexer, &mut store, &mut registry);
    handle_permission_spend(
        &spend(0x22, 0x33, 0xbb),
        &WritingIndexer,
        &mut store,
        &mut registry,
    );
    assert_eq!(store.get(StateSpace::Index, b"exits"), Some(vec![0x11; 32]));
    assert_eq!(store.get(StateSpace::Index, b"spend"), Some(vec![0xbb; 32]));
    assert_eq!(store.get(StateSpace::Metadata, b"last_spend"), Some(vec![0xbb; 32]));
    // The registry still mirrors the store.
    let loaded = load_registry(&store);
    assert_eq!(loaded.len(), registry.len());
    assert_eq!(loaded.get(&TransactionOutpoint::new([0xbb; 32], 1)), Some(&[0x33; 32]));
}

/// A store that counts the batches committed to it.
struct CountingStore {
    inner: MemoryStore,
    commits: usize,
}

impl Store for CountingStore {
    type Batch = vprogs::storage::OpBatch;

    fn write_batch(&self) -> Self::Batch {
        self.inner.write_batch()
    }

    fn commit(&mut self, wb: Self::Batch) {
        self.commits += 1;
        self.inner.commit(wb);
    }

    fn get(&self, ns: StateSpace, key: &[u8]) -> Option<Vec<u8>> {
        self.inner.get(ns, key)
    }

    fn prefix_iter(&self, ns: StateSpace, prefix: &[u8]) -> Vec<(Vec<u8>, Vec<u8>)> {
        self.inner.prefix_iter(ns, prefix)
    }
}

#[test]
fn pairings_and_spends_commit_one_batch_each() {
    let mut store = CountingStore { inner: MemoryStore::new(), commits: 0 };
    let mut registry: Registry = AssocMap::new();
    let mut parked: ParkedBundles = AssocMap::new();
    let settlement =
        SettlementInfo { tx_id: [0xaa; 32], new_state: [0x11; 32], ..Default::default() };
    handle_settlement(&mut parked, &settlement, &WritingIndexer, &mut store, &mut registry);
    assert_eq!(store.commits, 0);
    handle_pairing(&bundle(0x11, 0x22), &settlement, &WritingIndexer, &mut store, &mut registry);
    assert_eq!(store.commits, 1);
    handle_permission_spend(
        &spend(0x22, 0x33, 0xbb),
        &WritingIndexer,
        &mut store,
        &mut registry,
    );
    assert_eq!(store.commits, 2);
}

#[test]
fn changes_of_the_registry_can_be_made_later() {
    let mut store = MemoryStore::new();
    let mut registry: Registry = AssocMap::new();
    let mut parked: ParkedBundles = AssocMap::new();
    let settlement =
        SettlementInfo { tx_id: [0xaa; 32], new_state: [0x11; 32], ..Default::default() };
    let mut changes = vec![];
    for event in [
        ExitEvent::Bundle(Some(bundle(0x11, 0x22))),
        ExitEvent::Settlement(Some(settlement)),
        ExitEvent::Spend(Some(spend(0x22, 0x33, 0xbb))),
    ] {
        let (go_on, change) = exit_indexer_commit(&mut parked, event, &NoIndex, &mut store);
        assert!(go_on);
        changes.push(change);
    }
    assert!(changes[0].is_none());
    assert!(registry.is_empty());
    for change in changes.into_iter().flatten() {
        change.apply(&mut registry);
    }
    assert_eq!(registry.len(), 1);
    assert_eq!(registry.get(&TransactionOutpoint::new([0xbb; 32], 1)), Some(&[0x33; 32]));
    let (go_on, change) =
        exit_indexer_commit(&mut parked, ExitEvent::Spend(None), &NoIndex, &mut store);
    assert!(!go_on);
    assert!(change.is_none());
}
