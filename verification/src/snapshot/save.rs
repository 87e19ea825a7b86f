//! Saving: the state as of the latest retained settlement, reconstructed and sealed in a
//! container.

use vstd::prelude::*;

use crate::assoc::{AssocMap, KeyEq};
use crate::bytes::equal32;
use crate::l1::{ChainBlockMetadata, Hash32, SettlementInfo};
use crate::smt::builder::lemma_filter_all;
use crate::smt::node::{NodeHasher, ResourceId};
use crate::snapshot::container::{
    container_bytes, io_error_text, io_message, lemma_read_after_write, parse_container,
    record_models, write_container, Record, RecordModel, SnapshotError,
};
use crate::snapshot::header::{header_bytes, SnapshotHeader};
use crate::snapshot::rebuild::{
    distinct_records, lemma_root_ignores_order, root_of_records, state_root,
};
use crate::snapshot::source::{NodeIdentity, NodeModel, NodeState, RollbackPointer};
use crate::text::{hex, hex_text};

verus! {

/// What was saved.
#[derive(Clone, Copy, Debug)]
pub struct SaveSummary {
    /// The covenant that the snapshot was taken from.
    pub covenant_id: Hash32,
    /// The batch whose state the records are.
    pub committed_index: u64,
    /// The state root that the records were checked against.
    pub settlement_new_state: [u8; 32],
    /// The number of records in the snapshot.
    pub record_count: u64,
}

/// Why a snapshot could not be saved.
#[derive(Debug)]
pub enum SaveError {
    /// The store could not be opened; the text is the store's.
    OpenStore(String),
    /// The settings lack the covenant or the lane.
    NoIdentity,
    /// The committed tip carries no settlement to pin the snapshot to.
    NoSettlement,
    /// The block of the settlement is older than the oldest retained batch.
    SettlementNotRetained,
    /// The state root is not the one that was settled.
    RootMismatch { computed: [u8; 32], settlement: [u8; 32] },
    /// Writing the snapshot failed.
    Io(std::io::Error),
}

impl From<std::io::Error> for SaveError {
    fn from(e: std::io::Error) -> (r: SaveError)
        ensures
            r == SaveError::Io(e),
    {
        SaveError::Io(e)
    }
}

impl vstd::std_specs::convert::FromSpecImpl<std::io::Error> for SaveError {
    open spec fn obeys_from_spec() -> bool {
        true
    }

    open spec fn from_spec(e: std::io::Error) -> SaveError {
        SaveError::Io(e)
    }
}

impl SaveError {
    /// The error in words.
    pub fn message(&self) -> (r: String)
        ensures
            match self {
                SaveError::OpenStore(e) => r@ == "cannot open store read-only: "@ + e@,
                SaveError::NoIdentity => r@
                    == "no vprun-state.json identity (covenant_id) in data dir"@,
                SaveError::NoSettlement => r@ == "no settlement recorded in the committed state"@,
                SaveError::SettlementNotRetained => r@
                    == "settlement block is below the pruned root; snapshot a more recent state"@,
                SaveError::RootMismatch { computed, settlement } => r@
                    == "reconstructed state root "@ + hex(computed@)
                    + " does not match settlement root "@ + hex(settlement@),
                SaveError::Io(_) => "snapshot io error: "@.is_prefix_of(r@),
            },
    {
        match self {
            SaveError::OpenStore(e) => {
                "cannot open store read-only: ".to_owned().concat(e.as_str())
            },
            SaveError::NoIdentity => {
                "no vprun-state.json identity (covenant_id) in data dir".to_owned()
            },
            SaveError::NoSettlement => "no settlement recorded in the committed state".to_owned(),
            SaveError::SettlementNotRetained => {
                "settlement block is below the pruned root; snapshot a more recent state".to_owned()
            },
            SaveError::RootMismatch { computed, settlement } => {
                let have = hex_text(computed);
                let want = hex_text(settlement);
                "reconstructed state root ".to_owned().concat(have.as_str()).concat(
                    " does not match settlement root ",
                ).concat(want.as_str())
            },
            SaveError::Io(e) => {
                let text = io_error_text(e);
                let r = io_message(text.as_str());
                assert(r@.take("snapshot io error: "@.len() as int) =~= "snapshot io error: "@);
                r
            },
        }
    }
}

/// The batch that comes from block `wanted`: the first one met on the way down from batch `n` to
/// the oldest retained one.
pub open spec fn search_down(node: NodeModel, n: u64, wanted: Hash32) -> Option<u64>
    decreases n,
{
    if node.block_of(n) == Some(wanted) {
        Some(n)
    } else if n <= node.retained_root {
        None
    } else {
        search_down(node, (n - 1) as u64, wanted)
    }
}

/// The version of a resource in the first rollback pointer that is for it.
pub open spec fn rollback_in(list: Seq<RollbackPointer>, id: ResourceId) -> Option<u64>
    decreases list.len(),
{
    if list.len() == 0 {
        None
    } else if list[0].0 == id {
        Some(list[0].1)
    } else {
        rollback_in(list.drop_first(), id)
    }
}

/// The version that a resource had before the first batch after `n` that changed it.
pub open spec fn rollback_after(node: NodeModel, n: u64, id: ResourceId) -> Option<u64>
    decreases node.tip_index - n,
{
    if n >= node.tip_index {
        None
    } else {
        match rollback_in(node.rollbacks_of((n + 1) as u64), id) {
            Some(version) => Some(version),
            None => rollback_after(node, (n + 1) as u64, id),
        }
    }
}

/// The version of a resource after batch `n`: the one it had before its first later change, or
/// the latest where there is no later change.
pub open spec fn version_at(node: NodeModel, n: u64, id: ResourceId) -> Option<u64> {
    match rollback_after(node, n, id) {
        Some(version) => Some(version),
        None => if node.latest.contains_key(id) {
            Some(node.latest[id])
        } else {
            None
        },
    }
}

/// The value of a resource after batch `n`: empty where it was absent, that is, had no version or
/// version zero.
pub open spec fn value_at(node: NodeModel, n: u64, id: ResourceId) -> Seq<u8> {
    match version_at(node, n, id) {
        Some(version) => if version == 0 {
            Seq::empty()
        } else {
            node.value_of(version, id)
        },
        None => Seq::empty(),
    }
}

/// `records` lists, in some order and each once, the resources that have a value after batch `n`,
/// with their values.
pub open spec fn is_state_at(node: NodeModel, n: u64, records: Seq<RecordModel>) -> bool {
    &&& distinct_records(records)
    &&& forall|i: int|
        #![trigger records[i]]
        0 <= i < records.len() ==> records[i].1.len() > 0 && records[i].1 == value_at(
            node,
            n,
            records[i].0,
        )
    &&& forall|id: ResourceId|
        (#[trigger] value_at(node, n, id)).len() > 0 ==> exists|i: int|
            0 <= i < records.len() && (#[trigger] records[i]).0 == id
}

/// The header of a snapshot of `node` after batch `n`, pinned to `settlement`.
pub open spec fn snapshot_header(
    identity: NodeIdentity,
    node: NodeModel,
    n: u64,
    settlement: SettlementInfo,
) -> SnapshotHeader {
    SnapshotHeader {
        covenant_id: identity.covenant_id->0,
        lane_id: identity.lane_id->0,
        bootstrap_txid: match identity.bootstrap_txid {
            Some(id) => id,
            None => crate::bytes::array32(Seq::new(32, |i: int| 0u8)),
        },
        committed_index: n,
        chain_block_metadata: ChainBlockMetadata {
            last_settlement: Some(settlement),
            ..node.batches[n]
        },
    }
}

/// The result of sealing `records`, the state after batch `n`.
pub open spec fn sealed<H: NodeHasher>(
    identity: NodeIdentity,
    node: NodeModel,
    n: u64,
    settlement: SettlementInfo,
    records: Seq<RecordModel>,
    r: Result<(SaveSummary, Vec<u8>), SaveError>,
) -> bool {
    let computed = state_root::<H>(records);
    if computed != settlement.new_state {
        r == Err::<(SaveSummary, Vec<u8>), SaveError>(
            SaveError::RootMismatch { computed, settlement: settlement.new_state },
        )
    } else {
        &&& records.len() <= u64::MAX
        &&& r is Ok
        &&& r->Ok_0.0 == (SaveSummary {
            covenant_id: identity.covenant_id->0,
            committed_index: n,
            settlement_new_state: settlement.new_state,
            record_count: records.len() as u64,
        })
        &&& r->Ok_0.1@ == container_bytes(
            header_bytes(snapshot_header(identity, node, n, settlement)),
            records.len(),
            records,
        )
    }
}

/// What saving a snapshot of `node` gives.
pub open spec fn save_outcome<H: NodeHasher>(
    identity: NodeIdentity,
    node: NodeModel,
    r: Result<(SaveSummary, Vec<u8>), SaveError>,
) -> bool {
    if identity.covenant_id is None || identity.lane_id is None {
        r == Err::<(SaveSummary, Vec<u8>), SaveError>(SaveError::NoIdentity)
    } else {
        match node.tip_metadata.last_settlement {
            None => r == Err::<(SaveSummary, Vec<u8>), SaveError>(SaveError::NoSettlement),
            Some(settlement) => match search_down(
                node,
                node.tip_index,
                settlement.containing_block,
            ) {
                None => r == Err::<(SaveSummary, Vec<u8>), SaveError>(
                    SaveError::SettlementNotRetained,
                ),
                Some(n) => if node.root_at(n) != settlement.new_state {
                    r == Err::<(SaveSummary, Vec<u8>), SaveError>(
                        SaveError::RootMismatch {
                            computed: node.root_at(n),
                            settlement: settlement.new_state,
                        },
                    )
                } else {
                    exists|records: Seq<RecordModel>|
                        #![trigger is_state_at(node, n, records)]
                        is_state_at(node, n, records) && sealed::<H>(
                            identity,
                            node,
                            n,
                            settlement,
                            records,
                            r,
                        )
                },
            },
        }
    }
}

/// Finds the batch that comes from block `wanted`, walking down from the tip.
fn find_batch(node: &NodeState, wanted: &Hash32) -> (r: Option<(u64, ChainBlockMetadata)>)
    ensures
        match r {
            Some((n, m)) => search_down(node@, node@.tip_index, *wanted) == Some(n)
                && node@.batches.contains_pair(n, m),
            None => search_down(node@, node@.tip_index, *wanted) is None,
        },
{
    let mut n: u64 = node.tip_index();
    loop
        invariant
            search_down(node@, node@.tip_index, *wanted) == search_down(node@, n, *wanted),
        decreases n,
    {
        if let Some(m) = node.batch(n) {
            if equal32(&m.hash, wanted) {
                return Some((n, m));
            }
        }
        if n <= node.retained_root() {
            return None;
        }
        n -= 1;
    }
}

/// The versions of all resources after batch `n`.
fn versions_at(node: &NodeState, n: u64) -> (r: AssocMap<ResourceId, u64>)
    requires
        n <= node@.tip_index,
    ensures
        forall|id: ResourceId|
            #![trigger r@.contains_key(id)]
            #![trigger version_at(node@, n, id)]
            version_at(node@, n, id) == if r@.contains_key(id) {
                Some(r@[id])
            } else {
                None
            },
{
    let latest = node.latest_pointers();
    let mut r: AssocMap<ResourceId, u64> = AssocMap::new();
    let mut i: usize = 0;
    while i < latest.len()
        invariant
            i <= latest@.len(),
            forall|j: int|
                #![trigger latest@[j]]
                0 <= j < latest@.len() ==> node@.latest.contains_pair(latest@[j].0, latest@[j].1),
            forall|id: ResourceId| #[trigger]
                r@.contains_key(id) ==> node@.latest.contains_pair(id, r@[id]),
            forall|j: int| 0 <= j < i ==> r@.contains_key((#[trigger] latest@[j]).0),
        decreases latest@.len() - i,
    {
        r.insert(latest[i].0, latest[i].1);
        i += 1;
    }
    assert forall|id: ResourceId| #[trigger] r@.contains_key(id) == node@.latest.contains_key(
        id,
    ) by {
        if node@.latest.contains_key(id) {
            let j = choose|j: int| 0 <= j < latest@.len() && (#[trigger] latest@[j]).0 == id;
            assert(r@.contains_key(latest@[j].0));
        }
    }
    let mut at: u64 = node.tip_index();
    assert(forall|id: ResourceId|
        #![trigger r@.contains_key(id)]
        version_at(node@, at, id) == if r@.contains_key(id) {
            Some(r@[id])
        } else {
            None
        });
    while at > n
        invariant
            n <= at <= node@.tip_index,
            forall|id: ResourceId|
                #![trigger r@.contains_key(id)]
                version_at(node@, at, id) == if r@.contains_key(id) {
                    Some(r@[id])
                } else {
                    None
                },
        decreases at,
    {
        let list = node.rollback_pointers(at);
        let mut k: usize = list.len();
        assert(list@.skip(k as int) =~= Seq::empty());
        while k > 0
            invariant
                k <= list@.len(),
                n < at <= node@.tip_index,
                list@ == node@.rollbacks_of(at),
                forall|id: ResourceId|
                    #![trigger r@.contains_key(id)]
                    (match rollback_in(list@.skip(k as int), id) {
                        Some(version) => Some(version),
                        None => version_at(node@, at, id),
                    }) == if r@.contains_key(id) {
                        Some(r@[id])
                    } else {
                        None
                    },
            decreases k,
        {
            k -= 1;
            let ghost before = r@;
            r.insert(list[k].0, list[k].1);
            proof {
                let rest = list@.skip(k as int);
                assert(rest.drop_first() =~= list@.skip(k + 1));
                assert forall|id: ResourceId|
                    #![trigger r@.contains_key(id)]
                    (match rollback_in(rest, id) {
                        Some(version) => Some(version),
                        None => version_at(node@, at, id),
                    }) == if r@.contains_key(id) {
                        Some(r@[id])
                    } else {
                        None
                    } by {
                    if id != list@[k as int].0 {
                        assert(before.contains_key(id) == r@.contains_key(id));
                    }
                }
            }
        }
        proof {
            assert(list@.skip(0) =~= list@);
            assert forall|id: ResourceId|
                #![trigger r@.contains_key(id)]
                version_at(node@, (at - 1) as u64, id) == if r@.contains_key(id) {
                    Some(r@[id])
                } else {
                    None
                } by {
                assert(rollback_after(node@, (at - 1) as u64, id) == match rollback_in(
                    node@.rollbacks_of(at),
                    id,
                ) {
                    Some(version) => Some(version),
                    None => rollback_after(node@, at, id),
                });
            }
        }
        at -= 1;
    }
    assert forall|id: ResourceId|
        #![trigger r@.contains_key(id)]
        #![trigger version_at(node@, n, id)]
        version_at(node@, n, id) == if r@.contains_key(id) {
            Some(r@[id])
        } else {
            None
        } by {
        assert(r@.contains_key(id) || !r@.contains_key(id));
    }
    r
}

/// Lists the resources that have a value after batch `n`, with their values.
fn records_at(node: &NodeState, n: u64) -> (r: Vec<Record>)
    requires
        n <= node@.tip_index,
    ensures
        is_state_at(node@, n, record_models(r@)),
{
    let versions = versions_at(node, n);
    let count = versions.len();
    let mut r: Vec<Record> = Vec::new();
    let ghost mut from: Seq<int> = Seq::empty();
    let mut i: usize = 0;
    while i < count
        invariant
            i <= count,
            count == versions.size(),
            n <= node@.tip_index,
            forall|id: ResourceId|
                #![trigger versions@.contains_key(id)]
                #![trigger version_at(node@, n, id)]
                version_at(node@, n, id) == if versions@.contains_key(id) {
                    Some(versions@[id])
                } else {
                    None
                },
            from.len() == r@.len(),
            forall|j: int|
                #![trigger from[j]]
                0 <= j < from.len() ==> 0 <= from[j] < i && versions.nth(from[j])
                    == r@[j].resource_id,
            forall|j: int|
                #![trigger r@[j]]
                0 <= j < r@.len() ==> r@[j].value@.len() > 0 && r@[j].value@ == value_at(
                    node@,
                    n,
                    r@[j].resource_id,
                ),
            forall|a: int, b: int|
                #![trigger from[a], from[b]]
                0 <= a < b < from.len() ==> from[a] < from[b],
            forall|k: int|
                #![trigger versions.nth(k)]
                0 <= k < i && value_at(node@, n, versions.nth(k)).len() > 0 ==> exists|j: int|
                    0 <= j < from.len() && #[trigger] from[j] == k,
        decreases count - i,
    {
        let ghost had = from;
        let p = versions.pair(i);
        let id = *p.0;
        let version = *p.1;
        assert(versions@.contains_key(id));
        assert(version_at(node@, n, id) == Some(version));
        if version != 0 {
            let value = node.value(version, &id);
            if value.len() > 0 {
                r.push(Record { resource_id: id, value });
                proof {
                    from = from.push(i as int);
                    assert(from[had.len() as int] == i);
                }
            }
        }
        proof {
            assert forall|k: int|
                #![trigger versions.nth(k)]
                0 <= k < i + 1 && value_at(node@, n, versions.nth(k)).len()
                    > 0 implies exists|j: int| 0 <= j < from.len() && #[trigger] from[j] == k by {
                if k < i {
                    let j = choose|j: int| 0 <= j < had.len() && #[trigger] had[j] == k;
                    assert(from[j] == k);
                }
            }
        }
        i += 1;
    }
    proof {
        let models = record_models(r@);
        assert forall|a: int, b: int|
            #![trigger models[a], models[b]]
            0 <= a < b < models.len() implies models[a].0 != models[b].0 by {
            assert(from[a] < from[b]);
            assert(versions.nth(from[a]).model() != versions.nth(from[b]).model());
        }
        assert forall|j: int| #![trigger models[j]] 0 <= j < models.len() implies models[j].1.len()
            > 0 && models[j].1 == value_at(node@, n, models[j].0) by {
            assert(r@[j].value@.len() > 0);
        }
        assert forall|id: ResourceId|
            (#[trigger] value_at(node@, n, id)).len() > 0 implies exists|j: int|
            0 <= j < models.len() && (#[trigger] models[j]).0 == id by {
            assert(version_at(node@, n, id) is Some);
            assert(versions@.contains_key(id));
            let k = choose|k: int| 0 <= k < count && versions.nth(k).model() == id;
            assert(versions.nth(k) == id);
            let j = choose|j: int| 0 <= j < from.len() && #[trigger] from[j] == k;
            assert(models[j].0 == id);
        }
    }
    r
}

/// Saves the state of `node` as of its latest settlement: the batch that the settlement's block
/// holds is found, the state after it is reconstructed and checked against the settled root, and
/// the container that holds it is returned with a summary. `H` is the hash of the node's tree.
pub fn save_snapshot<H: NodeHasher>(identity: &NodeIdentity, node: &NodeState) -> (r: Result<
    (SaveSummary, Vec<u8>),
    SaveError,
>)
    ensures
        save_outcome::<H>(*identity, node@, r),
{
    let covenant_id = match identity.covenant_id {
        Some(id) => id,
        None => return Err(SaveError::NoIdentity),
    };
    let lane_id = match identity.lane_id {
        Some(id) => id,
        None => return Err(SaveError::NoIdentity),
    };
    let bootstrap_txid = match identity.bootstrap_txid {
        Some(id) => id,
        None => {
            let zero: [u8; 32] = [0u8; 32];
            proof {
                assert(zero@ =~= Seq::new(32, |i: int| 0u8));
                crate::bytes::lemma_array32(zero);
            }
            zero
        },
    };
    let settlement = match node.tip_metadata().last_settlement {
        Some(s) => s,
        None => return Err(SaveError::NoSettlement),
    };
    let (n, metadata) = match find_batch(node, &settlement.containing_block) {
        Some(found) => found,
        None => return Err(SaveError::SettlementNotRetained),
    };
    let store_root = node.root_at(n);
    if !equal32(&store_root, &settlement.new_state) {
        return Err(
            SaveError::RootMismatch { computed: store_root, settlement: settlement.new_state },
        );
    }
    proof {
        lemma_search_finds_last(node@, node@.tip_index, settlement.containing_block);
    }
    let records = records_at(node, n);
    let ghost models = record_models(records@);
    proof {
        lemma_filter_all(models, |r: RecordModel| r.1.len() > 0);
    }
    let rebuilt = root_of_records::<H>(records.as_slice());
    if !equal32(&rebuilt, &settlement.new_state) {
        return Err(
            SaveError::RootMismatch { computed: rebuilt, settlement: settlement.new_state },
        );
    }
    let header = SnapshotHeader {
        covenant_id,
        lane_id,
        bootstrap_txid,
        committed_index: n,
        chain_block_metadata: ChainBlockMetadata {
            hash: metadata.hash,
            blue_score: metadata.blue_score,
            last_settlement: Some(settlement),
        },
    };
    let record_count = records.len() as u64;
    let encoded = header.encode();
    let mut bytes: Vec<u8> = Vec::new();
    let _ = write_container(&mut bytes, encoded.as_slice(), record_count, records);
    let summary = SaveSummary {
        covenant_id,
        committed_index: n,
        settlement_new_state: settlement.new_state,
        record_count,
    };
    assert(bytes@ =~= container_bytes(header_bytes(header), record_count as nat, models));
    assert(is_state_at(node@, n, models));
    Ok((summary, bytes))
}

/// The walk down from batch `n` finds the last batch up to `n` that comes from the block, among
/// `n` itself and the retained ones; it finds none only where there is none.
pub proof fn lemma_search_finds_last(node: NodeModel, n: u64, wanted: Hash32)
    ensures
        match search_down(node, n, wanted) {
            Some(k) => {
                &&& k <= n
                &&& k == n || k >= node.retained_root
                &&& node.block_of(k) == Some(wanted)
                &&& forall|j: u64| k < j <= n ==> #[trigger] node.block_of(j) != Some(wanted)
            },
            None => forall|j: u64|
                j == n || node.retained_root <= j <= n ==> #[trigger] node.block_of(j) != Some(
                    wanted,
                ),
        },
    decreases n,
{
    if node.block_of(n) != Some(wanted) && n > node.retained_root {
        let m = (n - 1) as u64;
        lemma_search_finds_last(node, m, wanted);
        match search_down(node, n, wanted) {
            Some(k) => {
                assert forall|j: u64| k < j <= n implies #[trigger] node.block_of(j) != Some(
                    wanted,
                ) by {
                    assert(j == n || j <= m);
                }
            },
            None => {
                assert forall|j: u64|
                    j == n || node.retained_root <= j <= n implies #[trigger] node.block_of(j)
                    != Some(wanted) by {
                    assert(j == n || j <= m);
                }
            },
        }
    }
}

/// One list of the state holds no record that another lacks.
proof fn lemma_state_contained(
    node: NodeModel,
    n: u64,
    a: Seq<RecordModel>,
    b: Seq<RecordModel>,
    x: RecordModel,
)
    requires
        is_state_at(node, n, a),
        is_state_at(node, n, b),
        a.contains(x),
    ensures
        b.contains(x),
{
    let i = choose|i: int| 0 <= i < a.len() && a[i] == x;
    assert(a[i].1 == value_at(node, n, a[i].0));
    assert(value_at(node, n, x.0).len() > 0);
    let j = choose|j: int| 0 <= j < b.len() && (#[trigger] b[j]).0 == x.0;
    assert(b[j].1 == value_at(node, n, b[j].0));
    assert(b[j] == x);
}

/// The state after a batch has one root, in whatever order its records are listed.
pub proof fn lemma_state_has_one_root<H: NodeHasher>(
    node: NodeModel,
    n: u64,
    a: Seq<RecordModel>,
    b: Seq<RecordModel>,
)
    requires
        is_state_at(node, n, a),
        is_state_at(node, n, b),
    ensures
        a.to_multiset() == b.to_multiset(),
        state_root::<H>(a) == state_root::<H>(b),
{
    broadcast use vstd::seq_lib::group_to_multiset_ensures;

    assert(a.no_duplicates());
    assert(b.no_duplicates());
    a.lemma_multiset_has_no_duplicates();
    b.lemma_multiset_has_no_duplicates();
    assert forall|x: RecordModel| a.to_multiset().count(x) == b.to_multiset().count(x) by {
        if a.contains(x) {
            lemma_state_contained(node, n, a, b, x);
        }
        if b.contains(x) {
            lemma_state_contained(node, n, b, a, x);
        }
        assert(a.contains(x) == (a.to_multiset().count(x) > 0));
        assert(b.contains(x) == (b.to_multiset().count(x) > 0));
    }
    assert(a.to_multiset() =~= b.to_multiset());
    lemma_root_ignores_order::<H>(a, b);
}

/// A saved snapshot reads back as the state after the batch of the settlement, under a header
/// that is pinned to the settlement, and its records alone rebuild the settled root. Every value
/// is to fit the length that the format has for it.
pub proof fn lemma_saved_snapshot_restores<H: NodeHasher>(
    identity: NodeIdentity,
    node: NodeModel,
    r: Result<(SaveSummary, Vec<u8>), SaveError>,
)
    requires
        save_outcome::<H>(identity, node, r),
        r is Ok,
        forall|version: u64, id: ResourceId| #[trigger]
            node.value_of(version, id).len() < 0x1_0000_0000,
    ensures
        node.tip_metadata.last_settlement is Some,
        ({
            let settlement = node.tip_metadata.last_settlement->0;
            let (summary, bytes) = r->Ok_0;
            let n = summary.committed_index;
            let header = snapshot_header(identity, node, n, settlement);
            &&& search_down(node, node.tip_index, settlement.containing_block) == Some(n)
            &&& summary.settlement_new_state == settlement.new_state
            &&& header.chain_block_metadata.last_settlement == Some(settlement)
            &&& exists|records: Seq<RecordModel>|
                #![trigger is_state_at(node, n, records)]
                {
                    &&& is_state_at(node, n, records)
                    &&& parse_container(bytes@) == Ok::<_, SnapshotError>(
                        (header_bytes(header), records),
                    )
                    &&& state_root::<H>(records) == settlement.new_state
                    &&& summary.record_count == records.len()
                }
        }),
{
    let settlement = node.tip_metadata.last_settlement->0;
    let n = search_down(node, node.tip_index, settlement.containing_block)->0;
    let records = choose|records: Seq<RecordModel>|
        #![trigger is_state_at(node, n, records)]
        is_state_at(node, n, records) && sealed::<H>(identity, node, n, settlement, records, r);
    let header = snapshot_header(identity, node, n, settlement);
    crate::bytes::lemma_le_bytes_len(header.lane_id as nat, 4);
    crate::bytes::lemma_le_bytes_len(header.committed_index as nat, 8);
    crate::bytes::lemma_le_bytes_len(header.chain_block_metadata.blue_score as nat, 8);
    assert forall|i: int| 0 <= i < records.len() implies (#[trigger] records[i]).1.len()
        < 0x1_0000_0000 by {
        assert(records[i].1 == value_at(node, n, records[i].0));
        if let Some(version) = version_at(node, n, records[i].0) {
            assert(node.value_of(version, records[i].0).len() < 0x1_0000_0000);
        }
    }
    lemma_read_after_write(header_bytes(header), records);
}

/// A later batch does not change the state after an earlier one. The later batch is to record,
/// for each resource that it changes, the version the resource had, zero for none, and to leave
/// the earlier versions' values alone.
pub proof fn lemma_later_batch_keeps_state(
    node: NodeModel,
    later: NodeModel,
    n: u64,
    id: ResourceId,
)
    requires
        n <= node.tip_index,
        later.tip_index == node.tip_index + 1,
        forall|k: u64| k <= node.tip_index ==> #[trigger] later.rollbacks_of(k)
            == node.rollbacks_of(k),
        match rollback_in(later.rollbacks_of(later.tip_index), id) {
            Some(version) => version == if node.latest.contains_key(id) {
                node.latest[id]
            } else {
                0
            },
            None => later.latest.contains_key(id) == node.latest.contains_key(id)
                && later.latest[id] == node.latest[id],
        },
        version_at(node, n, id) matches Some(version) ==> later.value_of(version, id)
            == node.value_of(version, id),
    ensures
        value_at(later, n, id) == value_at(node, n, id),
{
    lemma_later_rollback(node, later, n, id);
}

proof fn lemma_later_rollback(node: NodeModel, later: NodeModel, n: u64, id: ResourceId)
    requires
        n <= node.tip_index,
        later.tip_index == node.tip_index + 1,
        forall|k: u64| k <= node.tip_index ==> #[trigger] later.rollbacks_of(k)
            == node.rollbacks_of(k),
    ensures
        rollback_after(later, n, id) == match rollback_after(node, n, id) {
            Some(version) => Some(version),
            None => rollback_in(later.rollbacks_of(later.tip_index), id),
        },
    decreases node.tip_index - n,
{
    if n < node.tip_index {
        let m = (n + 1) as u64;
        lemma_later_rollback(node, later, m, id);
        assert(later.rollbacks_of(m) == node.rollbacks_of(m));
    } else {
        assert(rollback_after(later, later.tip_index, id) is None);
    }
}

} // verus!
