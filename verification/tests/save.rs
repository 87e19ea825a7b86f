//! Saving a snapshot.

use vprogs::hashing::{Hasher, Sha256};
use vprogs::l1::{ChainBlockMetadata, SettlementInfo};
use vprogs::smt::node::ResourceId;
use vprogs::snapshot::container::{read_container, Record};
use vprogs::snapshot::header::SnapshotHeader;
use vprogs::snapshot::rebuild::{commit_to_empty_tree, compute_root_from_records, Commitment};
use vprogs::snapshot::save::{save_snapshot, SaveError};
use vprogs::snapshot::source::{NodeIdentity, NodeState};
use vprogs::storage::{MemoryStore, OpBatch};

const R1: ResourceId = [1u8; 32];
const R2: ResourceId = [2u8; 32];

fn root_of(values: &[(ResourceId, &[u8])]) -> [u8; 32] {
    let commitments =
        values.iter().map(|(id, v)| Commitment::new(*id, Sha256::hash(v))).collect();
    commit_to_empty_tree::<_, Sha256>(&mut OpBatch::new(), commitments, 1)
}

fn identity() -> NodeIdentity {
    NodeIdentity {
        covenant_id: Some([7; 32]),
        lane_id: Some(9),
        bootstrap_txid: Some([8; 32]),
    }
}

fn block(hash: u8, last_settlement: Option<SettlementInfo>) -> ChainBlockMetadata {
    ChainBlockMetadata { hash: [hash; 32], last_settlement, ..ChainBlockMetadata::default() }
}

/// Batch 1 sets r1 and r2 and holds the settlement; batch 2 changes r1.
fn two_batches() -> (NodeState, SettlementInfo) {
    let root1 = root_of(&[(R1, b"alpha"), (R2, b"beta")]);
    let settlement = SettlementInfo {
        containing_block: [11; 32],
        new_state: root1,
        ..SettlementInfo::default()
    };
    let m1 = block(11, Some(settlement));
    let m2 = block(22, Some(settlement));
    let mut node = NodeState::new(2, m2, 1);
    node.put_batch(1, m1, root1);
    node.put_batch(2, m2, root_of(&[(R1, b"gamma"), (R2, b"beta")]));
    node.put_value(1, R1, b"alpha");
    node.put_value(1, R2, b"beta");
    node.put_value(2, R1, b"gamma");
    node.put_latest(R1, 2);
    node.put_latest(R2, 1);
    assert!(node.put_rollback(2, &R1, 1));
    (node, settlement)
}

#[test]
fn save_reconstructs_settlement_state() {
    let (node, settlement) = two_batches();
    let root1 = settlement.new_state;

    let (summary, bytes) = save_snapshot::<Sha256>(&identity(), &node).expect("save should succeed");
    assert_eq!(summary.committed_index, 1);
    assert_eq!(summary.settlement_new_state, root1);
    assert_eq!(summary.record_count, 2); // r1=alpha (NOT gamma) and r2=beta
    assert_eq!(summary.covenant_id, [7; 32]);

    // The file must rebuild to the settlement root using only its records.
    let (hdr, records) = read_container(&mut bytes.as_slice()).unwrap();
    assert_eq!(compute_root_from_records(&mut MemoryStore::new(), &records), root1);
    assert!(records.contains(&Record { resource_id: R1, value: b"alpha".to_vec() }));
    assert!(records.contains(&Record { resource_id: R2, value: b"beta".to_vec() }));

    let header = SnapshotHeader::decode(&hdr).unwrap();
    assert_eq!(header.covenant_id, [7; 32]);
    assert_eq!(header.lane_id, 9);
    assert_eq!(header.bootstrap_txid, [8; 32]);
    assert_eq!(header.committed_index, 1);
    assert_eq!(header.chain_block_metadata.hash, [11; 32]);
    assert_eq!(header.settlement(), Some(settlement));
}

#[test]
fn header_is_pinned_to_the_settlement() {
    // The batch of the settlement's block did not itself carry the settlement.
    let root = root_of(&[(R1, b"v")]);
    let settlement = SettlementInfo {
        containing_block: [5; 32],
        new_state: root,
        ..SettlementInfo::default()
    };
    let mut node = NodeState::new(4, block(6, Some(settlement)), 0);
    node.put_batch(3, block(5, None), root);
    node.put_batch(4, block(6, Some(settlement)), root);
    node.put_latest(R1, 2);
    node.put_value(2, R1, b"v");
    let (_, bytes) = save_snapshot::<Sha256>(&identity(), &node).unwrap();
    let (hdr, _) = read_container(&mut bytes.as_slice()).unwrap();
    let header = SnapshotHeader::decode(&hdr).unwrap();
    assert_eq!(header.settlement(), Some(settlement));
    assert_eq!(header.committed_index, 3);
}

#[test]
fn missing_identity() {
    let (node, _) = two_batches();
    let mut id = identity();
    id.covenant_id = None;
    assert!(matches!(save_snapshot::<Sha256>(&id, &node), Err(SaveError::NoIdentity)));
    let mut id = identity();
    id.lane_id = None;
    assert!(matches!(save_snapshot::<Sha256>(&id, &node), Err(SaveError::NoIdentity)));
    let mut id = identity();
    id.bootstrap_txid = None;
    let (_, bytes) = save_snapshot::<Sha256>(&id, &node).unwrap();
    let (hdr, _) = read_container(&mut bytes.as_slice()).unwrap();
    assert_eq!(SnapshotHeader::decode(&hdr).unwrap().bootstrap_txid, [0; 32]);
}

#[test]
fn missing_settlement() {
    let node = NodeState::new(2, block(1, None), 1);
    assert!(matches!(save_snapshot::<Sha256>(&identity(), &node), Err(SaveError::NoSettlement)));
}

#[test]
fn pruned_settlement() {
    let settlement = SettlementInfo { containing_block: [11; 32], ..SettlementInfo::default() };
    let tip = block(33, Some(settlement));
    let mut node = NodeState::new(3, tip, 2);
    node.put_batch(1, block(11, None), [0; 32]);
    node.put_batch(2, block(22, None), [0; 32]);
    node.put_batch(3, tip, [0; 32]);
    assert!(matches!(save_snapshot::<Sha256>(&identity(), &node), Err(SaveError::SettlementNotRetained)));
    // The oldest retained batch itself is still searched.
    let settlement = SettlementInfo { containing_block: [22; 32], ..SettlementInfo::default() };
    let tip = block(33, Some(settlement));
    let mut node = NodeState::new(3, tip, 2);
    node.put_batch(2, block(22, None), [0; 32]);
    node.put_batch(3, tip, [0; 32]);
    assert_eq!(save_snapshot::<Sha256>(&identity(), &node).unwrap().0.committed_index, 2);
}

#[test]
fn store_root_differs_from_the_settled_one() {
    let (mut node, settlement) = two_batches();
    node.put_batch(1, block(11, Some(settlement)), [0xab; 32]);
    match save_snapshot::<Sha256>(&identity(), &node) {
        Err(SaveError::RootMismatch { computed, settlement: settled }) => {
            assert_eq!(computed, [0xab; 32]);
            assert_eq!(settled, settlement.new_state);
        }
        _ => panic!("the roots differ"),
    }
}

#[test]
fn rebuilt_root_differs_from_the_settled_one() {
    let (mut node, settlement) = two_batches();
    node.put_value(1, R2, b"tampered");
    match save_snapshot::<Sha256>(&identity(), &node) {
        Err(SaveError::RootMismatch { computed, settlement: settled }) => {
            assert_eq!(computed, root_of(&[(R1, b"alpha"), (R2, b"tampered")]));
            assert_eq!(settled, settlement.new_state);
        }
        _ => panic!("the roots differ"),
    }
}

#[test]
fn earliest_rollback_counts_and_absent_resources_are_skipped() {
    let r3: ResourceId = [3; 32];
    let root = root_of(&[(R1, b"one")]);
    let settlement = SettlementInfo {
        containing_block: [11; 32],
        new_state: root,
        ..SettlementInfo::default()
    };
    let tip = block(33, Some(settlement));
    let mut node = NodeState::new(3, tip, 1);
    node.put_batch(1, block(11, None), root);
    node.put_batch(2, block(22, None), [0; 32]);
    node.put_batch(3, tip, [0; 32]);
    for (v, data) in [(1u64, b"one"), (2, b"two"), (3, b"thr")] {
        node.put_value(v, R1, data);
    }
    node.put_value(2, R2, b"later");
    node.put_latest(R1, 3);
    node.put_latest(R2, 2);
    node.put_latest(r3, 1); // a version without a value
    assert!(node.put_rollback(3, &R1, 2));
    assert!(node.put_rollback(2, &R1, 1));
    assert!(node.put_rollback(2, &R1, 3)); // a second pointer of one batch does not count
    assert!(node.put_rollback(2, &R2, 0)); // r2 was created by batch 2
    let (summary, bytes) = save_snapshot::<Sha256>(&identity(), &node).unwrap();
    assert_eq!(summary.record_count, 1);
    let (_, records) = read_container(&mut bytes.as_slice()).unwrap();
    assert_eq!(records, vec![Record { resource_id: R1, value: b"one".to_vec() }]);
}

#[test]
fn corrupted_rollback_resource_is_refused() {
    let (mut node, _) = two_batches();
    assert!(!node.put_rollback(2, &[1; 31], 1));
    assert!(save_snapshot::<Sha256>(&identity(), &node).is_ok());
}

#[test]
fn error_texts() {
    assert_eq!(
        SaveError::OpenStore("locked".to_string()).message(),
        "cannot open store read-only: locked"
    );
    assert_eq!(
        SaveError::NoIdentity.message(),
        "no vprun-state.json identity (covenant_id) in data dir"
    );
    assert_eq!(
        SaveError::NoSettlement.message(),
        "no settlement recorded in the committed state"
    );
    assert_eq!(
        SaveError::SettlementNotRetained.message(),
        "settlement block is below the pruned root; snapshot a more recent state"
    );
    let mut computed = [0u8; 32];
    computed[0] = 0xab;
    computed[31] = 0x0f;
    let text = SaveError::RootMismatch { computed, settlement: [0x12; 32] }.message();
    assert_eq!(
        text,
        "reconstructed state root \
         ab0000000000000000000000000000000000000000000000000000000000000f \
         does not match settlement root \
         1212121212121212121212121212121212121212121212121212121212121212"
    );
    let io = std::io::Error::new(std::io::ErrorKind::Other, "full");
    assert_eq!(SaveError::from(io).message(), "snapshot io error: full");
}
