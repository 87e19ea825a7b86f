//! The snapshot header.

use vprogs::l1::{ChainBlockMetadata, SettlementInfo};
use vprogs::snapshot::header::SnapshotHeader;

#[test]
fn header_roundtrips_via_borsh() {
    let meta = ChainBlockMetadata {
        hash: [9u8; 32],
        blue_score: 123,
        ..ChainBlockMetadata::default()
    };
    let header = SnapshotHeader {
        covenant_id: [1u8; 32],
        lane_id: 5,
        bootstrap_txid: [2u8; 32],
        committed_index: 4242,
        chain_block_metadata: meta,
    };
    let bytes = header.encode();
    let back = SnapshotHeader::decode(&bytes).unwrap();
    assert_eq!(back.covenant_id, header.covenant_id);
    assert_eq!(back.lane_id, header.lane_id);
    assert_eq!(back.committed_index, header.committed_index);
    assert_eq!(back.chain_block_metadata, header.chain_block_metadata);
}

fn pinned() -> SnapshotHeader {
    SnapshotHeader {
        covenant_id: [1; 32],
        lane_id: 0x0403_0201,
        bootstrap_txid: [2; 32],
        committed_index: 7,
        chain_block_metadata: ChainBlockMetadata {
            hash: [3; 32],
            blue_score: 8,
            last_settlement: Some(SettlementInfo {
                tx_id: [4; 32],
                containing_block: [5; 32],
                new_state: [6; 32],
            }),
        },
    }
}

#[test]
fn encoding_is_exact() {
    let mut expected = vec![1; 32];
    expected.extend_from_slice(&[1, 2, 3, 4]);
    expected.extend_from_slice(&[2; 32]);
    expected.extend_from_slice(&[7, 0, 0, 0, 0, 0, 0, 0]);
    expected.extend_from_slice(&[3; 32]);
    expected.extend_from_slice(&[8, 0, 0, 0, 0, 0, 0, 0]);
    expected.push(1);
    expected.extend_from_slice(&[4; 32]);
    expected.extend_from_slice(&[5; 32]);
    expected.extend_from_slice(&[6; 32]);
    assert_eq!(pinned().encode(), expected);
    assert_eq!(SnapshotHeader::decode(&expected).unwrap(), pinned());

    let mut unpinned = pinned();
    unpinned.chain_block_metadata.last_settlement = None;
    expected.truncate(116);
    expected.push(0);
    assert_eq!(unpinned.encode(), expected);
    assert_eq!(SnapshotHeader::decode(&expected).unwrap(), unpinned);
}

#[test]
fn settlement_is_that_of_the_metadata() {
    assert_eq!(pinned().settlement().unwrap().tx_id, [4; 32]);
    let mut unpinned = pinned();
    unpinned.chain_block_metadata.last_settlement = None;
    assert!(unpinned.settlement().is_none());
}

#[test]
fn what_is_no_encoding_is_refused() {
    let bytes = pinned().encode();
    assert!(SnapshotHeader::decode(&bytes[..bytes.len() - 1]).is_err());
    let mut long = bytes.clone();
    long.push(0);
    assert!(SnapshotHeader::decode(&long).is_err());
    let mut flag = bytes.clone();
    flag[116] = 2;
    assert!(SnapshotHeader::decode(&flag).is_err());
    assert!(SnapshotHeader::decode(&[]).is_err());
}
