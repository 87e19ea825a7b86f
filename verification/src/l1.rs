//! What the node learns from the base chain, as far as the library reads or carries it. Which
//! fields the types have, and how wide their numbers are, is this library's choice.

use vstd::prelude::*;

use crate::assoc::KeyEq;
use crate::bytes::equal32;

verus! {

/// A block hash or a transaction id.
pub type Hash32 = [u8; 32];

/// An output of a transaction.
#[derive(Clone, Copy, Debug, PartialEq, Eq)]
pub struct TransactionOutpoint {
    pub transaction_id: Hash32,
    pub index: u32,
}

impl TransactionOutpoint {
    pub fn new(transaction_id: Hash32, index: u32) -> (r: TransactionOutpoint)
        ensures
            r == (TransactionOutpoint { transaction_id, index }),
    {
        TransactionOutpoint { transaction_id, index }
    }
}

impl KeyEq for TransactionOutpoint {
    type Model = TransactionOutpoint;

    open spec fn model(&self) -> TransactionOutpoint {
        *self
    }

    fn same(&self, other: &TransactionOutpoint) -> (r: bool) {
        self.index == other.index && equal32(&self.transaction_id, &other.transaction_id)
    }
}

impl KeyEq for [u8; 32] {
    type Model = [u8; 32];

    open spec fn model(&self) -> [u8; 32] {
        *self
    }

    fn same(&self, other: &[u8; 32]) -> (r: bool) {
        equal32(self, other)
    }
}

/// A settlement of the state on the base chain.
#[derive(Clone, Copy, Debug, PartialEq, Eq)]
pub struct SettlementInfo {
    /// The settlement transaction.
    pub tx_id: Hash32,
    /// The block that holds the transaction.
    pub containing_block: Hash32,
    /// The state root that was settled.
    pub new_state: [u8; 32],
}

impl Default for SettlementInfo {
    fn default() -> (r: SettlementInfo)
        ensures
            r.tx_id@ == Seq::new(32, |i: int| 0u8),
            r.containing_block@ == Seq::new(32, |i: int| 0u8),
            r.new_state@ == Seq::new(32, |i: int| 0u8),
    {
        let zero: [u8; 32] = [0u8; 32];
        assert(zero@ =~= Seq::new(32, |i: int| 0u8));
        SettlementInfo { tx_id: zero, containing_block: zero, new_state: zero }
    }
}

/// What is kept of the block that a batch comes from.
#[derive(Clone, Copy, Debug, PartialEq, Eq)]
pub struct ChainBlockMetadata {
    /// The block.
    pub hash: Hash32,
    /// The blue score of the block.
    pub blue_score: u64,
    /// The latest settlement up to the block.
    pub last_settlement: Option<SettlementInfo>,
}

impl Default for ChainBlockMetadata {
    fn default() -> (r: ChainBlockMetadata)
        ensures
            r.hash@ == Seq::new(32, |i: int| 0u8),
            r.blue_score == 0,
            r.last_settlement is None,
    {
        let zero: [u8; 32] = [0u8; 32];
        assert(zero@ =~= Seq::new(32, |i: int| 0u8));
        ChainBlockMetadata { hash: zero, blue_score: 0, last_settlement: None }
    }
}

/// A spend of a permission output: a claim on one exit, with the output that continues the rest.
#[derive(Clone, Debug)]
pub struct PermissionSpend {
    /// The covenant that the output belongs to.
    pub covenant_id: [u8; 32],
    /// The root of the spent output.
    pub old_root: [u8; 32],
    /// How many exits were unclaimed before.
    pub old_unclaimed: u64,
    /// The depth of the permission tree.
    pub depth: u32,
    /// The place of the claimed exit.
    pub leaf_index: u32,
    /// The script of the claimed exit.
    pub leaf_spk_bytes: Vec<u8>,
    /// The amount of the claimed exit.
    pub leaf_amount: u64,
    /// The amount that the claim takes out.
    pub deduct: u64,
    /// The root of the output that continues the rest.
    pub new_root: [u8; 32],
    /// The transaction that spends.
    pub spend_txid: [u8; 32],
    /// The index of the output that continues the rest.
    pub new_outpoint_index: u32,
}

} // verus!
