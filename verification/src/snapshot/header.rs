//! The header of a snapshot: whose state it is, and the settlement that a restored node resumes
//! from.

use vstd::prelude::*;

use crate::bytes::{
    le_bytes, lemma_array_view_eq, lemma_byte_range_values, lemma_le_bytes_len,
    lemma_le_value_of_bytes,
};
use crate::l1::{ChainBlockMetadata, Hash32, SettlementInfo};

verus! {

/// What seeds a fresh node from a snapshot.
#[derive(Clone, Copy, Debug, PartialEq, Eq)]
pub struct SnapshotHeader {
    /// The covenant that the snapshot was taken from.
    pub covenant_id: Hash32,
    /// The lane that the snapshot was taken from.
    pub lane_id: u32,
    /// The transaction that bootstrapped the covenant.
    pub bootstrap_txid: Hash32,
    /// The batch whose state the records are.
    pub committed_index: u64,
    /// The metadata of that batch, with the settlement that the snapshot is pinned to as its
    /// latest one. It is what a restored node starts from.
    pub chain_block_metadata: ChainBlockMetadata,
}

/// The encoding of a settlement, which may be absent.
pub open spec fn settlement_bytes(settlement: Option<SettlementInfo>) -> Seq<u8> {
    match settlement {
        None => seq![0u8],
        Some(s) => seq![1u8] + s.tx_id@ + s.containing_block@ + s.new_state@,
    }
}

/// The encoding of a header: its fields in order, numbers least significant byte first. Which
/// fields the block metadata has, and in which order they stand, is this library's choice.
pub open spec fn header_bytes(h: SnapshotHeader) -> Seq<u8> {
    h.covenant_id@ + le_bytes(h.lane_id as nat, 4) + h.bootstrap_txid@ + le_bytes(
        h.committed_index as nat,
        8,
    ) + h.chain_block_metadata.hash@ + le_bytes(h.chain_block_metadata.blue_score as nat, 8)
        + settlement_bytes(h.chain_block_metadata.last_settlement)
}

/// The fields of a settlement, in the order in which they are encoded.
type SettlementFields = (Hash32, Hash32, [u8; 32]);

/// The fields of a header, in the order in which they are encoded.
type HeaderFields = (Hash32, u32, Hash32, u64, (Hash32, u64, Option<SettlementFields>));

/// Calls `borsh::to_vec` on the fields of a header. The contract says that the fields are encoded
/// one after another: arrays as their bytes, numbers least significant byte first, an option as
/// one byte that tells whether it holds a value, followed by the value.
#[verifier::external_body]
fn encode_fields(f: HeaderFields) -> (r: Vec<u8>)
    ensures
        r@ == header_bytes(header_of(f)),
{
    borsh::to_vec(&f).expect("writing to a vector does not fail")
}

/// Calls `borsh::from_slice` for the fields of a header. The contract says that it gives the
/// fields whose encoding is `bytes`, all of them, and fails where `bytes` is no such encoding.
#[verifier::external_body]
fn decode_fields(bytes: &[u8]) -> (r: Result<HeaderFields, std::io::Error>)
    ensures
        match r {
            Ok(f) => bytes@ == header_bytes(header_of(f)),
            Err(_) => forall|f: HeaderFields| bytes@ != header_bytes(#[trigger] header_of(f)),
        },
{
    borsh::from_slice::<HeaderFields>(bytes)
}

/// The header with given fields.
spec fn header_of(f: HeaderFields) -> SnapshotHeader {
    SnapshotHeader {
        covenant_id: f.0,
        lane_id: f.1,
        bootstrap_txid: f.2,
        committed_index: f.3,
        chain_block_metadata: ChainBlockMetadata {
            hash: f.4.0,
            blue_score: f.4.1,
            last_settlement: match f.4.2 {
                None => None,
                Some(s) => Some(
                    SettlementInfo { tx_id: s.0, containing_block: s.1, new_state: s.2 },
                ),
            },
        },
    }
}

/// The fields of a header.
spec fn fields_of(h: SnapshotHeader) -> HeaderFields {
    let m = h.chain_block_metadata;
    (
        h.covenant_id,
        h.lane_id,
        h.bootstrap_txid,
        h.committed_index,
        (
            m.hash,
            m.blue_score,
            match m.last_settlement {
                None => None,
                Some(s) => Some((s.tx_id, s.containing_block, s.new_state)),
            },
        ),
    )
}

impl SnapshotHeader {
    /// Encodes the header for a container.
    pub fn encode(&self) -> (r: Vec<u8>)
        ensures
            r@ == header_bytes(*self),
    {
        let m = &self.chain_block_metadata;
        let settlement = match &m.last_settlement {
            None => None,
            Some(s) => Some((s.tx_id, s.containing_block, s.new_state)),
        };
        encode_fields(
            (
                self.covenant_id,
                self.lane_id,
                self.bootstrap_txid,
                self.committed_index,
                (m.hash, m.blue_score, settlement),
            ),
        )
    }

    /// Decodes a header. Fails where `bytes` is not the encoding of a header.
    pub fn decode(bytes: &[u8]) -> (r: Result<SnapshotHeader, std::io::Error>)
        ensures
            match r {
                Ok(h) => bytes@ == header_bytes(h),
                Err(_) => forall|h: SnapshotHeader| bytes@ != #[trigger] header_bytes(h),
            },
    {
        match decode_fields(bytes) {
            Ok(f) => {
                let settlement = match f.4.2 {
                    None => None,
                    Some(s) => Some(
                        SettlementInfo { tx_id: s.0, containing_block: s.1, new_state: s.2 },
                    ),
                };
                Ok(
                    SnapshotHeader {
                        covenant_id: f.0,
                        lane_id: f.1,
                        bootstrap_txid: f.2,
                        committed_index: f.3,
                        chain_block_metadata: ChainBlockMetadata {
                            hash: f.4.0,
                            blue_score: f.4.1,
                            last_settlement: settlement,
                        },
                    },
                )
            },
            Err(e) => {
                proof {
                    assert forall|h: SnapshotHeader| bytes@ != #[trigger] header_bytes(h) by {
                        assert(header_of(fields_of(h)) == h);
                    }
                }
                Err(e)
            },
        }
    }

    /// The settlement that the snapshot is pinned to.
    pub fn settlement(&self) -> (r: Option<SettlementInfo>)
        ensures
            r == self.chain_block_metadata.last_settlement,
    {
        self.chain_block_metadata.last_settlement
    }
}

/// Different headers have different encodings, so that decoding an encoded header gives it back.
pub proof fn lemma_header_encoding_injective(a: SnapshotHeader, b: SnapshotHeader)
    requires
        header_bytes(a) == header_bytes(b),
    ensures
        a == b,
{
    let s = header_bytes(a);
    let t = header_bytes(b);
    let ma = a.chain_block_metadata;
    let mb = b.chain_block_metadata;
    lemma_le_bytes_len(a.lane_id as nat, 4);
    lemma_le_bytes_len(b.lane_id as nat, 4);
    lemma_le_bytes_len(a.committed_index as nat, 8);
    lemma_le_bytes_len(b.committed_index as nat, 8);
    lemma_le_bytes_len(ma.blue_score as nat, 8);
    lemma_le_bytes_len(mb.blue_score as nat, 8);
    lemma_byte_range_values();
    lemma_le_value_of_bytes(a.lane_id as nat, 4);
    lemma_le_value_of_bytes(b.lane_id as nat, 4);
    lemma_le_value_of_bytes(a.committed_index as nat, 8);
    lemma_le_value_of_bytes(b.committed_index as nat, 8);
    lemma_le_value_of_bytes(ma.blue_score as nat, 8);
    lemma_le_value_of_bytes(mb.blue_score as nat, 8);
    assert(a.covenant_id@ =~= s.subrange(0, 32));
    assert(b.covenant_id@ =~= t.subrange(0, 32));
    assert(le_bytes(a.lane_id as nat, 4) =~= s.subrange(32, 36));
    assert(le_bytes(b.lane_id as nat, 4) =~= t.subrange(32, 36));
    assert(a.bootstrap_txid@ =~= s.subrange(36, 68));
    assert(b.bootstrap_txid@ =~= t.subrange(36, 68));
    assert(le_bytes(a.committed_index as nat, 8) =~= s.subrange(68, 76));
    assert(le_bytes(b.committed_index as nat, 8) =~= t.subrange(68, 76));
    assert(ma.hash@ =~= s.subrange(76, 108));
    assert(mb.hash@ =~= t.subrange(76, 108));
    assert(le_bytes(ma.blue_score as nat, 8) =~= s.subrange(108, 116));
    assert(le_bytes(mb.blue_score as nat, 8) =~= t.subrange(108, 116));
    assert(settlement_bytes(ma.last_settlement) =~= s.skip(116));
    assert(settlement_bytes(mb.last_settlement) =~= t.skip(116));
    lemma_array_view_eq(a.covenant_id, b.covenant_id);
    lemma_array_view_eq(a.bootstrap_txid, b.bootstrap_txid);
    lemma_array_view_eq(ma.hash, mb.hash);
    lemma_settlement_encoding_injective(ma.last_settlement, mb.last_settlement);
}

proof fn lemma_settlement_encoding_injective(
    a: Option<SettlementInfo>,
    b: Option<SettlementInfo>,
)
    requires
        settlement_bytes(a) == settlement_bytes(b),
    ensures
        a == b,
{
    let s = settlement_bytes(a);
    let t = settlement_bytes(b);
    assert(s[0] == t[0]);
    if let (Some(x), Some(y)) = (a, b) {
        assert(x.tx_id@ =~= s.subrange(1, 33));
        assert(y.tx_id@ =~= t.subrange(1, 33));
        assert(x.containing_block@ =~= s.subrange(33, 65));
        assert(y.containing_block@ =~= t.subrange(33, 65));
        assert(x.new_state@ =~= s.subrange(65, 97));
        assert(y.new_state@ =~= t.subrange(65, 97));
        lemma_array_view_eq(x.tx_id, y.tx_id);
        lemma_array_view_eq(x.containing_block, y.containing_block);
        lemma_array_view_eq(x.new_state, y.new_state);
    }
}

} // verus!
