//! Secondary indexes that an application keeps beside the state.
//!
//! An indexer reads the bytes of resources and adds entries to the index namespace, in the batch
//! that writes the state itself: index and state take effect together and cannot disagree.

use std::sync::Arc;

use vstd::prelude::*;

use crate::exit_index::{ExitIndexer, ExitsForBundle};
use crate::l1::{PermissionSpend, SettlementInfo};
use crate::smt::node::ResourceId;
use crate::storage::{BatchOp, WriteBatch};

verus! {

/// Hooks of a secondary index over the resources.
///
/// `old`, `new` and `restored` are the bytes of the resource, absent where it is; `version` is the
/// index of the batch that commits. Every hook may add to the batch and does nothing by default:
/// an indexer that does not know a kind of resource writes nothing.
pub trait ResourceIndexer: Send + Sync + 'static {
    /// Adds the events of a change of a resource.
    fn index_events<W: WriteBatch>(
        &self,
        _id: &ResourceId,
        _old: Option<&[u8]>,
        _new: Option<&[u8]>,
        _version: u64,
        _wb: &mut W,
    )
        ensures
            old(_wb).ops().is_prefix_of(final(_wb).ops()),
        default_ensures
            final(_wb).ops() == old(_wb).ops(),
    {
    }

    /// Rewrites the entries for the present state of a resource.
    fn index_state<W: WriteBatch>(
        &self,
        _id: &ResourceId,
        _old: Option<&[u8]>,
        _new: Option<&[u8]>,
        _version: u64,
        _wb: &mut W,
    )
        ensures
            old(_wb).ops().is_prefix_of(final(_wb).ops()),
        default_ensures
            final(_wb).ops() == old(_wb).ops(),
    {
    }

    /// Restores the entries for the state of a resource that was rolled back.
    fn revert_state<W: WriteBatch>(
        &self,
        _id: &ResourceId,
        _restored: Option<&[u8]>,
        _version: u64,
        _wb: &mut W,
    )
        ensures
            old(_wb).ops().is_prefix_of(final(_wb).ops()),
        default_ensures
            final(_wb).ops() == old(_wb).ops(),
    {
    }
}

/// A shared handle to an indexer.
pub struct Indexer<X: ResourceIndexer>(pub Arc<X>);

impl<X: ResourceIndexer> Clone for Indexer<X> {
    fn clone(&self) -> (r: Indexer<X>)
        ensures
            r == *self,
    {
        Indexer(self.0.clone())
    }
}

impl<X: ResourceIndexer> Indexer<X> {
    /// How a handle is shown: the indexer itself stays hidden.
    pub fn label(&self) -> (r: String)
        ensures
            r@ == "Indexer(..)"@,
    {
        "Indexer(..)".to_owned()
    }
}

/// The indexer that indexes nothing.
#[derive(Clone, Copy, Debug)]
pub struct NoIndex;

impl ResourceIndexer for NoIndex {

}

impl ExitIndexer for NoIndex {
    open spec fn exits_writes(
        &self,
        bundle: ExitsForBundle,
        settlement: SettlementInfo,
        writes: Seq<BatchOp>,
    ) -> bool {
        writes == Seq::<BatchOp>::empty()
    }

    open spec fn spend_writes(&self, spend: PermissionSpend, writes: Seq<BatchOp>) -> bool {
        writes == Seq::<BatchOp>::empty()
    }

    fn on_exits_committed<W: WriteBatch>(
        &self,
        bundle: &ExitsForBundle,
        settlement: &SettlementInfo,
        wb: &mut W,
    ) {
        assert(self.exits_writes(*bundle, *settlement, Seq::<BatchOp>::empty()));
        assert(wb.ops() =~= wb.ops() + Seq::<BatchOp>::empty());
    }

    fn on_permission_spent<W: WriteBatch>(&self, spend: &PermissionSpend, wb: &mut W) {
        assert(self.spend_writes(*spend, Seq::<BatchOp>::empty()));
        assert(wb.ops() =~= wb.ops() + Seq::<BatchOp>::empty());
    }
}

} // verus!
