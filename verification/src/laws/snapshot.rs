//! Snapshots: the bytes of a container, what is saved in it, and what its root binds.

use vstd::prelude::*;

use crate::bytes::{
    le_bytes, le_value, lemma_array32, lemma_array_view_eq, lemma_byte_range_values,
    lemma_le_bytes_len, lemma_le_bytes_of_value, lemma_le_value_of_bytes,
};
use crate::hashing::{Hasher, Sha256};
use crate::l1::Hash32;
use crate::laws::tree::{
    is_hashed, is_zero, lemma_root_binds_leaves, lemma_root_is_written_last, no_resource_twice,
};
use crate::smt::builder::{tree_writes, Leaf};
use crate::smt::node::{Node, NodeHasher, ResourceId, EMPTY_HASH};
use crate::snapshot::container::{
    body_bytes, container_bytes, lemma_parse_records, lemma_parsed_records, parse_container,
    parse_sealed, preamble, record_models, records_bytes, Record, RecordModel, SnapshotError, MAGIC,
};
use crate::snapshot::header::{header_bytes, lemma_header_encoding_injective, SnapshotHeader};
use crate::snapshot::rebuild::{
    commitment_leaves, distinct_live_records, live_records, record_leaves, state_root, Commitment,
};
use crate::snapshot::save::{
    is_state_at, lemma_saved_snapshot_restores, lemma_search_finds_last, lemma_state_has_one_root,
    rollback_after, rollback_in, save_outcome, sealed, search_down, snapshot_header, value_at,
    version_at, SaveError, SaveSummary,
};
use crate::snapshot::source::{NodeIdentity, NodeModel, RollbackPointer};

verus! {

/// Lists of records and of commitments stand for lists of pairs, place by place.
pub proof fn lemma_records_by_place(records: Seq<Record>, commitments: Seq<Commitment>)
    ensures
        record_models(records).len() == records.len(),
        forall|i: int|
            0 <= i < records.len() ==> #[trigger] record_models(records)[i] == (
                records[i].resource_id,
                records[i].value@,
            ),
        commitment_leaves(commitments).len() == commitments.len(),
        forall|i: int|
            0 <= i < commitments.len() ==> #[trigger] commitment_leaves(commitments)[i] == (
                commitments[i].resource_id,
                commitments[i].value_hash,
            ),
{
}

/// The bytes of a header, field by field: the covenant, the lane, the bootstrap transaction, the
/// batch, the block and its blue score, then a one byte and the settlement, or a zero byte.
pub proof fn lemma_header_by_byte(h: SnapshotHeader)
    ensures
        ({
            let s = header_bytes(h);
            let m = h.chain_block_metadata;
            &&& s.subrange(0, 32) == h.covenant_id@
            &&& s.subrange(32, 36) == le_bytes(h.lane_id as nat, 4)
            &&& s.subrange(36, 68) == h.bootstrap_txid@
            &&& s.subrange(68, 76) == le_bytes(h.committed_index as nat, 8)
            &&& s.subrange(76, 108) == m.hash@
            &&& s.subrange(108, 116) == le_bytes(m.blue_score as nat, 8)
            &&& match m.last_settlement {
                None => s.len() == 117 && s[116] == 0,
                Some(x) => {
                    &&& s.len() == 213
                    &&& s[116] == 1
                    &&& s.subrange(117, 149) == x.tx_id@
                    &&& s.subrange(149, 181) == x.containing_block@
                    &&& s.subrange(181, 213) == x.new_state@
                },
            }
        }),
{
    let s = header_bytes(h);
    let m = h.chain_block_metadata;
    lemma_le_bytes_len(h.lane_id as nat, 4);
    lemma_le_bytes_len(h.committed_index as nat, 8);
    lemma_le_bytes_len(m.blue_score as nat, 8);
    assert(s.subrange(0, 32) =~= h.covenant_id@);
    assert(s.subrange(32, 36) =~= le_bytes(h.lane_id as nat, 4));
    assert(s.subrange(36, 68) =~= h.bootstrap_txid@);
    assert(s.subrange(68, 76) =~= le_bytes(h.committed_index as nat, 8));
    assert(s.subrange(76, 108) =~= m.hash@);
    assert(s.subrange(108, 116) =~= le_bytes(m.blue_score as nat, 8));
    if let Some(x) = m.last_settlement {
        assert(s.subrange(117, 149) =~= x.tx_id@);
        assert(s.subrange(149, 181) =~= x.containing_block@);
        assert(s.subrange(181, 213) =~= x.new_state@);
    }
}

/// The bytes of a container, part by part: `VPSNAP01`, the version 1 in two bytes, the header's
/// length in four, the header, the number of records in eight, the records, and the SHA-256 digest
/// of all that.
pub proof fn lemma_container_by_byte(header: Seq<u8>, count: nat, records: Seq<RecordModel>)
    ensures
        ({
            let all = container_bytes(header, count, records);
            let h = header.len() as int;
            let end = all.len() - 32;
            &&& end == 22 + h + records_bytes(records).len()
            &&& all.subrange(0, 8) == seq![0x56u8, 0x50, 0x53, 0x4e, 0x41, 0x50, 0x30, 0x31]
            &&& all[8] == 1 && all[9] == 0
            &&& all.subrange(10, 14) == le_bytes(header.len(), 4)
            &&& all.subrange(14, 14 + h) == header
            &&& all.subrange(14 + h, 22 + h) == le_bytes(count, 8)
            &&& all.subrange(22 + h, end) == records_bytes(records)
            &&& all.subrange(end, all.len() as int) == Sha256::digest(all.take(end))@
            &&& body_bytes(header, count, records) == all.take(end)
        }),
{
    let all = container_bytes(header, count, records);
    let body = body_bytes(header, count, records);
    let h = header.len() as int;
    let end = all.len() - 32;
    lemma_le_bytes_len(1, 2);
    lemma_le_bytes_len(header.len(), 4);
    lemma_le_bytes_len(count, 8);
    reveal_with_fuel(le_bytes, 3);
    assert(all.take(end) =~= body);
    assert(all.subrange(0, 8) =~= seq![0x56u8, 0x50, 0x53, 0x4e, 0x41, 0x50, 0x30, 0x31]);
    assert(all.subrange(8, 10) =~= le_bytes(1, 2));
    assert(all[8] == all.subrange(8, 10)[0] && all[9] == all.subrange(8, 10)[1]);
    assert(all.subrange(10, 14) =~= le_bytes(header.len(), 4));
    assert(all.subrange(14, 14 + h) =~= header);
    assert(all.subrange(14 + h, 22 + h) =~= le_bytes(count, 8));
    assert(all.subrange(22 + h, end) =~= records_bytes(records));
    assert(all.subrange(end, all.len() as int) =~= Sha256::digest(body)@);
}

/// The bytes of records: of each, its resource, the length of its value in four bytes, and its
/// value, one record after another.
pub proof fn lemma_records_by_byte(first: RecordModel, rest: Seq<RecordModel>)
    ensures
        records_bytes(Seq::empty()).len() == 0,
        records_bytes(seq![first] + rest) == first.0@ + le_bytes(first.1.len(), 4) + first.1
            + records_bytes(rest),
{
    assert((seq![first] + rest).drop_first() =~= rest);
}

/// How a container is told from what is none, in the order in which it is looked at: its magic,
/// its length, its digest, its version. The digest looked for is that of all bytes but the last
/// 32.
pub proof fn lemma_read_by_byte(all: Seq<u8>, digest: Seq<u8>)
    ensures
        parse_container(all) == parse_sealed(all, Sha256::digest(all.take(all.len() - 32))@),
        ({
            let r = parse_sealed(all, digest);
            let magic = all.take(8) == seq![0x56u8, 0x50, 0x53, 0x4e, 0x41, 0x50, 0x30, 0x31];
            let sound = all.skip(all.len() - 32) == digest;
            let version = all[8] + 256 * all[9];
            &&& all.len() < 8 ==> r == refused(SnapshotError::Truncated)
            &&& all.len() >= 8 && !magic ==> r == refused(SnapshotError::BadMagic)
            &&& 8 <= all.len() < 42 && magic ==> r == refused(SnapshotError::Truncated)
            &&& all.len() >= 42 && magic && !sound ==> r == refused(SnapshotError::DigestMismatch)
            &&& all.len() >= 42 && magic && sound && version != 1 ==> r == refused(
                SnapshotError::UnsupportedVersion(version as u16),
            )
            &&& all.len() >= 42 && magic && sound && version == 1 ==> r is Ok || r == refused(
                SnapshotError::Truncated,
            )
            &&& r is Ok ==> all.len() >= 42 && magic && sound && version == 1
        }),
{
    assert(MAGIC@ =~= seq![0x56u8, 0x50, 0x53, 0x4e, 0x41, 0x50, 0x30, 0x31]);
    if all.len() >= 42 {
        let body = all.take(all.len() - 32);
        let v = body.subrange(8, 10);
        reveal_with_fuel(le_value, 3);
        assert(v[0] == all[8] && v[1] == all[9]);
        assert(v.drop_first().drop_first() =~= Seq::empty());
        assert(le_value(v) == all[8] + 256 * all[9]);
    }
}

/// The result of reading that is error `e`.
pub open spec fn refused(e: SnapshotError) -> Result<(Seq<u8>, Seq<RecordModel>), SnapshotError> {
    Err(e)
}

/// A container's bytes without its digest: `VPSNAP01`, the version 1, the header and the records
/// after their lengths, and `rest`.
pub open spec fn laid_out(
    header: Seq<u8>,
    records: Seq<RecordModel>,
    rest: Seq<u8>,
) -> Seq<u8> {
    seq![0x56u8, 0x50, 0x53, 0x4e, 0x41, 0x50, 0x30, 0x31, 1, 0] + le_bytes(header.len(), 4)
        + header + le_bytes(records.len(), 8) + records_bytes(records) + rest
}

proof fn lemma_laid_out(header: Seq<u8>, records: Seq<RecordModel>, rest: Seq<u8>)
    ensures
        laid_out(header, records, rest) == body_bytes(header, records.len(), records) + rest,
{
    reveal_with_fuel(le_bytes, 3);
    assert(le_bytes(1, 2) =~= seq![1u8, 0]);
    assert(laid_out(header, records, rest) =~= body_bytes(header, records.len(), records) + rest);
}

/// Where the bytes of a header and of records stand in a container, with the digest looked for at
/// its end, those are read, whatever else stands between the records and the digest.
pub proof fn lemma_what_stands_there_is_read(
    header: Seq<u8>,
    records: Seq<RecordModel>,
    rest: Seq<u8>,
    digest: Seq<u8>,
)
    requires
        header.len() < 0x1_0000_0000,
        records.len() < 0x1_0000_0000_0000_0000,
        forall|i: int| 0 <= i < records.len() ==> (#[trigger] records[i]).1.len() < 0x1_0000_0000,
        digest.len() == 32,
    ensures
        parse_sealed(laid_out(header, records, rest) + digest, digest) == Ok::<
            (Seq<u8>, Seq<RecordModel>),
            SnapshotError,
        >((header, records)),
{
    let body = laid_out(header, records, rest);
    let all = body + digest;
    let n = header.len() as int;
    lemma_laid_out(header, records, rest);
    lemma_le_bytes_len(1, 2);
    lemma_le_bytes_len(header.len(), 4);
    lemma_le_bytes_len(records.len(), 8);
    lemma_byte_range_values();
    lemma_le_value_of_bytes(1, 2);
    lemma_le_value_of_bytes(header.len(), 4);
    lemma_le_value_of_bytes(records.len(), 8);
    assert(all.take(8) =~= MAGIC@);
    assert(all.take(all.len() - 32) =~= body);
    assert(all.skip(all.len() - 32) =~= digest);
    assert(body.subrange(8, 10) =~= le_bytes(1, 2));
    assert(body.subrange(10, 14) =~= le_bytes(header.len(), 4));
    assert(body.subrange(14, 14 + n) =~= header);
    assert(body.subrange(14 + n, 22 + n) =~= le_bytes(records.len(), 8));
    assert(body.skip(22 + n) =~= records_bytes(records) + rest);
    lemma_parse_records(records, rest);
}

/// What is read from a container stands there: its bytes are those of the header and the records
/// that are read, others that may follow, and the digest looked for.
pub proof fn lemma_what_is_read_stands_there(
    all: Seq<u8>,
    digest: Seq<u8>,
    header: Seq<u8>,
    records: Seq<RecordModel>,
)
    requires
        parse_sealed(all, digest) == Ok::<(Seq<u8>, Seq<RecordModel>), SnapshotError>(
            (header, records),
        ),
    ensures
        exists|rest: Seq<u8>| all == #[trigger] laid_out(header, records, rest) + digest,
{
    let body = all.take(all.len() - 32);
    let n = le_value(body.subrange(10, 14)) as int;
    let count = le_value(body.subrange(14 + n, 22 + n));
    let plain = body_bytes(header, records.len(), records);
    let rest = body.skip(plain.len() as int);
    lemma_parsed_records(body.skip(22 + n), count);
    lemma_le_bytes_of_value(body.subrange(8, 10));
    lemma_le_bytes_of_value(body.subrange(10, 14));
    lemma_le_bytes_of_value(body.subrange(14 + n, 22 + n));
    assert(body.take(8) =~= all.take(8));
    assert(preamble(header.len()) =~= body.take(14));
    assert(plain =~= body.take(22 + n) + records_bytes(records));
    assert(body.take(22 + n) + body.skip(22 + n) =~= body);
    assert(plain =~= body.take(plain.len() as int));
    lemma_laid_out(header, records, rest);
    assert(body =~= plain + rest);
    assert(all =~= body + all.skip(all.len() - 32));
}

/// The state root of records is the hash of the root that the tree over their leaves writes last,
/// or 32 zero bytes where no record is live.
pub proof fn lemma_state_root_is_written<H: NodeHasher>(records: Seq<RecordModel>, version: u64)
    ensures
        match tree_writes::<H>(record_leaves::<H>(records), version).last()->node {
            Node::Empty => record_leaves::<H>(records).len() == 0 && is_zero(
                state_root::<H>(records),
            ),
            Node::Leaf { hash, .. } => state_root::<H>(records) == hash,
            Node::Internal { hash, .. } => state_root::<H>(records) == hash,
        },
{
    lemma_root_is_written_last::<H>(record_leaves::<H>(records), version);
}

/// No two live records are for one resource.
pub open spec fn no_live_resource_twice(records: Seq<RecordModel>) -> bool {
    forall|i: int, j: int|
        #![trigger records[i], records[j]]
        0 <= i < j < records.len() && records[i].1.len() > 0 && records[j].1.len() > 0
            ==> records[i].0 != records[j].0
}

/// Each record with a value adds one leaf, of its resource and the hash of its value, after those
/// of the records before it; a record without a value adds none.
pub proof fn lemma_leaves_by_record<H: Hasher>(records: Seq<RecordModel>, last: RecordModel)
    ensures
        record_leaves::<H>(Seq::empty()).len() == 0,
        last.1.len() == 0 ==> record_leaves::<H>(records.push(last)) == record_leaves::<H>(records),
        last.1.len() > 0 ==> record_leaves::<H>(records.push(last)) == record_leaves::<H>(
            records,
        ).push((last.0, H::digest(last.1))),
{
    reveal(Seq::filter);
    assert(records.push(last).drop_last() =~= records);
    let more = record_leaves::<H>(records.push(last));
    let fewer = record_leaves::<H>(records);
    if last.1.len() > 0 {
        assert(more =~= fewer.push((last.0, H::digest(last.1))));
    } else {
        assert(more =~= fewer);
    }
}

/// A list has a leaf where it has a live record with that resource and hash.
proof fn lemma_leaf_of_record<H: Hasher>(records: Seq<RecordModel>)
    ensures
        forall|i: int|
            0 <= i < records.len() && (#[trigger] records[i]).1.len() > 0
                ==> record_leaves::<H>(records).contains((records[i].0, H::digest(records[i].1))),
        forall|x: Leaf| #[trigger]
            record_leaves::<H>(records).contains(x) ==> exists|i: int|
                0 <= i < records.len() && (#[trigger] records[i]).1.len() > 0 && x == (
                    records[i].0,
                    H::digest(records[i].1),
                ),
{
    let live = |r: RecordModel| r.1.len() > 0;
    let kept = records.filter(live);
    let leaves = record_leaves::<H>(records);
    assert forall|i: int|
        0 <= i < records.len() && (#[trigger] records[i]).1.len() > 0 implies leaves.contains(
        (records[i].0, H::digest(records[i].1)),
    ) by {
        records.lemma_filter_contains(live, i);
        let m = choose|m: int| 0 <= m < kept.len() && kept[m] == records[i];
        assert(leaves[m] == (records[i].0, H::digest(records[i].1)));
    }
    assert forall|x: Leaf| #[trigger] leaves.contains(x) implies exists|i: int|
        0 <= i < records.len() && (#[trigger] records[i]).1.len() > 0 && x == (
            records[i].0,
            H::digest(records[i].1),
        ) by {
        let m = choose|m: int| 0 <= m < leaves.len() && leaves[m] == x;
        records.lemma_filter_pred(live, m);
        assert(kept.contains(kept[m]));
        records.lemma_filter_contains_rev(live, kept[m]);
        let i = choose|i: int| 0 <= i < records.len() && records[i] == kept[m];
        assert(records[i].1.len() > 0);
    }
}

/// The test for distinct resources asks whether two live records are for one resource, and does
/// not mind records without a value.
pub proof fn lemma_distinct_by_record<H: Hasher>(records: Seq<RecordModel>)
    ensures
        distinct_live_records(records) <==> no_live_resource_twice(records),
        no_live_resource_twice(records) ==> no_resource_twice(record_leaves::<H>(records)),
    decreases records.len(),
{
    reveal(Seq::filter);
    let live = live_records(records);
    if records.len() > 0 {
        let head = records.drop_last();
        let last = records.last();
        let fewer = live_records(head);
        lemma_distinct_by_record::<H>(head);
        lemma_leaf_of_record::<H>(head);
        assert(records =~= head.push(last));
        lemma_leaves_by_record::<H>(head, last);
        if no_live_resource_twice(records) {
            assert forall|i: int, j: int|
                #![trigger head[i], head[j]]
                0 <= i < j < head.len() && head[i].1.len() > 0 && head[j].1.len()
                    > 0 implies head[i].0 != head[j].0 by {
                assert(records[i].0 != records[j].0);
            }
            lemma_distinct_with_last(head, last);
            let leaves = record_leaves::<H>(records);
            let before = record_leaves::<H>(head);
            assert forall|i: int, j: int|
                #![trigger leaves[i], leaves[j]]
                0 <= i < j < leaves.len() implies leaves[i].0 != leaves[j].0 by {
                if j < before.len() {
                    assert(leaves[i] == before[i] && leaves[j] == before[j]);
                } else {
                    assert(leaves[i] == before[i]);
                    assert(before.contains(before[i]));
                    let m = choose|m: int|
                        0 <= m < head.len() && (#[trigger] head[m]).1.len() > 0 && before[i] == (
                            head[m].0,
                            H::digest(head[m].1),
                        );
                    assert(records[m].0 != records[records.len() - 1].0);
                }
            }
        }
        if distinct_live_records(records) {
            assert forall|i: int, j: int|
                #![trigger fewer[i], fewer[j]]
                0 <= i < j < fewer.len() implies fewer[i].0 != fewer[j].0 by {
                assert(live[i].0 != live[j].0);
            }
            assert forall|i: int, j: int|
                #![trigger records[i], records[j]]
                0 <= i < j < records.len() && records[i].1.len() > 0 && records[j].1.len()
                    > 0 implies records[i].0 != records[j].0 by {
                if j < head.len() {
                    assert(head[i].0 != head[j].0);
                } else {
                    assert(head[i] == records[i]);
                    head.lemma_filter_contains(|r: RecordModel| r.1.len() > 0, i);
                    let m = choose|m: int| 0 <= m < fewer.len() && fewer[m] == head[i];
                    assert(live[m] == fewer[m] && live[fewer.len() as int] == last);
                }
            }
        }
    }
}

/// Live records that are distinct stay so with one more of another resource.
proof fn lemma_distinct_with_last(head: Seq<RecordModel>, last: RecordModel)
    requires
        distinct_live_records(head),
        no_live_resource_twice(head.push(last)),
    ensures
        distinct_live_records(head.push(last)),
{
    reveal(Seq::filter);
    let records = head.push(last);
    let p = |r: RecordModel| r.1.len() > 0;
    let live = live_records(records);
    let fewer = live_records(head);
    assert(records.drop_last() =~= head);
    assert forall|i: int, j: int|
        #![trigger live[i], live[j]]
        0 <= i < j < live.len() implies live[i].0 != live[j].0 by {
        if j < fewer.len() {
            assert(live[i] == fewer[i] && live[j] == fewer[j]);
        } else {
            assert(live[i] == fewer[i] && live[j] == last);
            head.lemma_filter_pred(p, i);
            assert(fewer.contains(fewer[i]));
            head.lemma_filter_contains_rev(p, fewer[i]);
            let m = choose|m: int| 0 <= m < head.len() && head[m] == fewer[i];
            assert(records[m] == head[m] && records[head.len() as int] == last);
        }
    }
}

/// `s` is hashed for `records`: it is the value of one of them, or what is hashed for a node of
/// the tree over them.
pub open spec fn is_hashed_for(records: Seq<RecordModel>, s: Seq<u8>) -> bool {
    ||| exists|i: int| 0 <= i < records.len() && (#[trigger] records[i]).1 == s
    ||| is_hashed(record_leaves::<Sha256>(records), s)
}

/// The root binds the records. If two lists, neither with two live records for one resource, have
/// the same state root under SHA-256, then they hold the same live records; or among the strings
/// that are hashed for them, one for each list, there are two different ones with the same
/// digest; or one of those strings has the digest of 32 zero bytes, which stands for no records
/// without anything being hashed.
pub proof fn lemma_root_binds_records(a: Seq<RecordModel>, b: Seq<RecordModel>)
    requires
        no_live_resource_twice(a),
        no_live_resource_twice(b),
        state_root::<Sha256>(a) == state_root::<Sha256>(b),
    ensures
        ({
            ||| forall|x: RecordModel|
                x.1.len() > 0 ==> (#[trigger] a.contains(x) <==> b.contains(x))
            ||| exists|x: Seq<u8>, y: Seq<u8>|
                #[trigger] is_hashed_for(a, x) && #[trigger] is_hashed_for(b, y) && x != y
                    && Sha256::digest(x) == Sha256::digest(y)
            ||| exists|x: Seq<u8>| #[trigger] is_hashed_for(a, x) && is_zero(Sha256::digest(x))
            ||| exists|x: Seq<u8>| #[trigger] is_hashed_for(b, x) && is_zero(Sha256::digest(x))
        }),
{
    let la = record_leaves::<Sha256>(a);
    let lb = record_leaves::<Sha256>(b);
    lemma_distinct_by_record::<Sha256>(a);
    lemma_distinct_by_record::<Sha256>(b);
    lemma_root_binds_leaves(la, lb);
    if forall|x: Leaf| #[trigger] la.contains(x) <==> lb.contains(x) {
        if !(forall|x: RecordModel|
            x.1.len() > 0 ==> (#[trigger] a.contains(x) <==> b.contains(x))) {
            let x = choose|x: RecordModel|
                x.1.len() > 0 && !(#[trigger] a.contains(x) <==> b.contains(x));
            if a.contains(x) {
                let y = lemma_record_with_leaf(a, b, x);
                assert(is_hashed_for(a, x.1) && is_hashed_for(b, y.1));
            } else {
                let y = lemma_record_with_leaf(b, a, x);
                assert(is_hashed_for(a, y.1) && is_hashed_for(b, x.1));
            }
        }
    } else if exists|x: Seq<u8>, y: Seq<u8>|
        #[trigger] is_hashed(la, x) && #[trigger] is_hashed(lb, y) && x != y && Sha256::digest(x)
            == Sha256::digest(y) {
        let (x, y) = choose|x: Seq<u8>, y: Seq<u8>|
            #[trigger] is_hashed(la, x) && #[trigger] is_hashed(lb, y) && x != y
                && Sha256::digest(x) == Sha256::digest(y);
        assert(is_hashed_for(a, x) && is_hashed_for(b, y));
    } else if exists|x: Seq<u8>| #[trigger] is_hashed(la, x) && is_zero(Sha256::digest(x)) {
        let x = choose|x: Seq<u8>| #[trigger] is_hashed(la, x) && is_zero(Sha256::digest(x));
        assert(is_hashed_for(a, x));
    } else {
        let x = choose|x: Seq<u8>| #[trigger] is_hashed(lb, x) && is_zero(Sha256::digest(x));
        assert(is_hashed_for(b, x));
    }
}

/// Where two lists have the same leaves, a record of the one has one with its leaf in the other.
proof fn lemma_record_with_leaf(
    a: Seq<RecordModel>,
    b: Seq<RecordModel>,
    x: RecordModel,
) -> (y: RecordModel)
    requires
        x.1.len() > 0,
        a.contains(x),
        !b.contains(x),
        forall|l: Leaf| #[trigger]
            record_leaves::<Sha256>(a).contains(l) ==> record_leaves::<Sha256>(b).contains(l),
    ensures
        exists|i: int| 0 <= i < a.len() && (#[trigger] a[i]).1 == x.1,
        exists|i: int| 0 <= i < b.len() && (#[trigger] b[i]).1 == y.1,
        y.1 != x.1,
        Sha256::digest(y.1) == Sha256::digest(x.1),
{
    lemma_leaf_of_record::<Sha256>(a);
    lemma_leaf_of_record::<Sha256>(b);
    let i = choose|i: int| 0 <= i < a.len() && a[i] == x;
    assert(a[i].1.len() > 0);
    let l = (x.0, Sha256::digest(x.1));
    assert(record_leaves::<Sha256>(a).contains(l));
    let j = choose|j: int|
        0 <= j < b.len() && (#[trigger] b[j]).1.len() > 0 && l == (b[j].0, Sha256::digest(b[j].1));
    if b[j].1 == x.1 {
        assert(b[j] == x);
        assert(b.contains(x));
    }
    b[j]
}

/// No rollback pointer of batch `k` is for resource `id`.
pub open spec fn passes_over(node: NodeModel, k: u64, id: ResourceId) -> bool {
    node.rollbacks.contains_key(k) ==> forall|j: int|
        0 <= j < node.rollbacks[k].len() ==> (#[trigger] node.rollbacks[k][j]).0 != id
}

/// Resource `id` had version `version` after batch `n`: the first later batch that has a rollback
/// pointer for it says so, in the first such pointer; or no later batch has one, and it is the
/// latest version.
pub open spec fn had_version(node: NodeModel, n: u64, id: ResourceId, version: u64) -> bool {
    ||| exists|k: u64, j: int|
        {
            &&& n < k <= node.tip_index
            &&& node.rollbacks.contains_key(k)
            &&& 0 <= j < node.rollbacks[k].len()
            &&& #[trigger] node.rollbacks[k][j] == (id, version)
            &&& forall|m: int| 0 <= m < j ==> (#[trigger] node.rollbacks[k][m]).0 != id
            &&& forall|m: u64| n < m < k ==> #[trigger] passes_over(node, m, id)
        }
    ||| {
        &&& forall|m: u64| n < m <= node.tip_index ==> #[trigger] passes_over(node, m, id)
        &&& node.latest.contains_key(id)
        &&& node.latest[id] == version
    }
}

proof fn lemma_rollback_in(list: Seq<RollbackPointer>, id: ResourceId)
    ensures
        match rollback_in(list, id) {
            Some(version) => exists|j: int|
                {
                    &&& 0 <= j < list.len()
                    &&& #[trigger] list[j] == (id, version)
                    &&& forall|m: int| 0 <= m < j ==> (#[trigger] list[m]).0 != id
                },
            None => forall|j: int| 0 <= j < list.len() ==> (#[trigger] list[j]).0 != id,
        },
    decreases list.len(),
{
    if list.len() > 0 && list[0].0 != id {
        let tail = list.drop_first();
        lemma_rollback_in(tail, id);
        match rollback_in(tail, id) {
            Some(version) => {
                let j = choose|j: int|
                    {
                        &&& 0 <= j < tail.len()
                        &&& #[trigger] tail[j] == (id, version)
                        &&& forall|m: int| 0 <= m < j ==> (#[trigger] tail[m]).0 != id
                    };
                assert(list[j + 1] == (id, version));
                assert forall|m: int| 0 <= m < j + 1 implies (#[trigger] list[m]).0 != id by {
                    if m > 0 {
                        assert(tail[m - 1].0 != id);
                    }
                }
            },
            None => {
                assert forall|j: int| 0 <= j < list.len() implies (#[trigger] list[j]).0 != id by {
                    if j > 0 {
                        assert(tail[j - 1].0 != id);
                    }
                }
            },
        }
    } else if list.len() > 0 {
        assert(list[0] == (id, list[0].1));
    }
}

proof fn lemma_rollback_after(node: NodeModel, n: u64, id: ResourceId)
    ensures
        match rollback_after(node, n, id) {
            Some(version) => exists|k: u64, j: int|
                {
                    &&& n < k <= node.tip_index
                    &&& node.rollbacks.contains_key(k)
                    &&& 0 <= j < node.rollbacks[k].len()
                    &&& #[trigger] node.rollbacks[k][j] == (id, version)
                    &&& forall|m: int| 0 <= m < j ==> (#[trigger] node.rollbacks[k][m]).0 != id
                    &&& forall|m: u64| n < m < k ==> #[trigger] passes_over(node, m, id)
                },
            None => forall|m: u64| n < m <= node.tip_index ==> #[trigger] passes_over(node, m, id),
        },
    decreases node.tip_index - n,
{
    if n < node.tip_index {
        let next = (n + 1) as u64;
        let list = node.rollbacks_of(next);
        lemma_rollback_in(list, id);
        match rollback_in(list, id) {
            Some(version) => {
                let j = choose|j: int|
                    {
                        &&& 0 <= j < list.len()
                        &&& #[trigger] list[j] == (id, version)
                        &&& forall|m: int| 0 <= m < j ==> (#[trigger] list[m]).0 != id
                    };
                assert(node.rollbacks[next][j] == (id, version));
            },
            None => {
                lemma_rollback_after(node, next, id);
                assert(passes_over(node, next, id));
                match rollback_after(node, next, id) {
                    Some(version) => {
                        let (k, j) = choose|k: u64, j: int|
                            {
                                &&& next < k <= node.tip_index
                                &&& node.rollbacks.contains_key(k)
                                &&& 0 <= j < node.rollbacks[k].len()
                                &&& #[trigger] node.rollbacks[k][j] == (id, version)
                                &&& forall|m: int|
                                    0 <= m < j ==> (#[trigger] node.rollbacks[k][m]).0 != id
                                &&& forall|m: u64|
                                    next < m < k ==> #[trigger] passes_over(node, m, id)
                            };
                        assert forall|m: u64| n < m < k implies #[trigger] passes_over(
                            node,
                            m,
                            id,
                        ) by {
                            assert(m == next || m > next);
                        }
                        assert(node.rollbacks[k][j] == (id, version));
                    },
                    None => {
                        assert forall|m: u64|
                            n < m <= node.tip_index implies #[trigger] passes_over(node, m, id) by {
                            assert(m == next || m > next);
                        }
                    },
                }
            },
        }
    }
}

/// A resource had at most one version after a batch, and the version found is the one it had.
pub proof fn lemma_version_by_pointer(node: NodeModel, n: u64, id: ResourceId, version: u64)
    ensures
        version_at(node, n, id) == Some(version) <==> had_version(node, n, id, version),
{
    lemma_rollback_after(node, n, id);
    if had_version(node, n, id, version) {
        if exists|k: u64, j: int|
            {
                &&& n < k <= node.tip_index
                &&& node.rollbacks.contains_key(k)
                &&& 0 <= j < node.rollbacks[k].len()
                &&& #[trigger] node.rollbacks[k][j] == (id, version)
                &&& forall|m: int| 0 <= m < j ==> (#[trigger] node.rollbacks[k][m]).0 != id
                &&& forall|m: u64| n < m < k ==> #[trigger] passes_over(node, m, id)
            } {
            let (k, j) = choose|k: u64, j: int|
                {
                    &&& n < k <= node.tip_index
                    &&& node.rollbacks.contains_key(k)
                    &&& 0 <= j < node.rollbacks[k].len()
                    &&& #[trigger] node.rollbacks[k][j] == (id, version)
                    &&& forall|m: int| 0 <= m < j ==> (#[trigger] node.rollbacks[k][m]).0 != id
                    &&& forall|m: u64| n < m < k ==> #[trigger] passes_over(node, m, id)
                };
            assert(node.rollbacks[k][j].0 == id);
            match rollback_after(node, n, id) {
                Some(v) => {
                    let (p, q) = choose|p: u64, q: int|
                        {
                            &&& n < p <= node.tip_index
                            &&& node.rollbacks.contains_key(p)
                            &&& 0 <= q < node.rollbacks[p].len()
                            &&& #[trigger] node.rollbacks[p][q] == (id, v)
                            &&& forall|m: int|
                                0 <= m < q ==> (#[trigger] node.rollbacks[p][m]).0 != id
                            &&& forall|m: u64| n < m < p ==> #[trigger] passes_over(node, m, id)
                        };
                    assert(node.rollbacks[p][q].0 == id);
                    if p < k {
                        assert(passes_over(node, p, id));
                    }
                    if k < p {
                        assert(passes_over(node, k, id));
                    }
                },
                None => {
                    assert(passes_over(node, k, id));
                },
            }
        } else {
            if let Some(v) = rollback_after(node, n, id) {
                let (p, q) = choose|p: u64, q: int|
                    {
                        &&& n < p <= node.tip_index
                        &&& node.rollbacks.contains_key(p)
                        &&& 0 <= q < node.rollbacks[p].len()
                        &&& #[trigger] node.rollbacks[p][q] == (id, v)
                        &&& forall|m: int| 0 <= m < q ==> (#[trigger] node.rollbacks[p][m]).0 != id
                        &&& forall|m: u64| n < m < p ==> #[trigger] passes_over(node, m, id)
                    };
                assert(node.rollbacks[p][q].0 == id);
                assert(passes_over(node, p, id));
            }
        }
    }
}

/// `value` is what resource `id` had after batch `n`: the value of the version it had, which is
/// not zero, and not empty.
pub open spec fn had_value(node: NodeModel, n: u64, id: ResourceId, value: Seq<u8>) -> bool {
    value.len() > 0 && exists|version: u64|
        version != 0 && #[trigger] had_version(node, n, id, version) && node.values.contains_pair(
            (version, id),
            value,
        )
}

/// `records` lists each resource that had a value after batch `n`, once and with that value, and
/// nothing else.
pub open spec fn lists_state(node: NodeModel, n: u64, records: Seq<RecordModel>) -> bool {
    &&& forall|i: int, j: int|
        #![trigger records[i], records[j]]
        0 <= i < j < records.len() ==> records[i].0 != records[j].0
    &&& forall|id: ResourceId, value: Seq<u8>|
        records.contains((id, value)) <==> #[trigger] had_value(node, n, id, value)
}

proof fn lemma_value_by_version(node: NodeModel, n: u64, id: ResourceId, value: Seq<u8>)
    ensures
        had_value(node, n, id, value) <==> value.len() > 0 && value == value_at(node, n, id),
{
    if had_value(node, n, id, value) {
        let version = choose|version: u64|
            version != 0 && #[trigger] had_version(node, n, id, version)
                && node.values.contains_pair((version, id), value);
        lemma_version_by_pointer(node, n, id, version);
    }
    if value.len() > 0 && value == value_at(node, n, id) {
        let version = version_at(node, n, id)->0;
        lemma_version_by_pointer(node, n, id, version);
        assert(had_version(node, n, id, version));
    }
}

/// The state that a snapshot is made of is what the node's versions and rollback pointers say.
pub proof fn lemma_state_by_version(node: NodeModel, n: u64, records: Seq<RecordModel>)
    ensures
        is_state_at(node, n, records) <==> lists_state(node, n, records),
{
    if is_state_at(node, n, records) {
        assert forall|id: ResourceId, value: Seq<u8>|
            records.contains((id, value)) <==> #[trigger] had_value(node, n, id, value) by {
            lemma_value_by_version(node, n, id, value);
            if records.contains((id, value)) {
                let i = choose|i: int| 0 <= i < records.len() && records[i] == (id, value);
                assert(records[i].1.len() > 0);
            }
            if had_value(node, n, id, value) {
                assert(value_at(node, n, id).len() > 0);
                let i = choose|i: int| 0 <= i < records.len() && (#[trigger] records[i]).0 == id;
                assert(records[i].1 == value_at(node, n, records[i].0));
                assert(records[i] == (id, value));
            }
        }
    }
    if lists_state(node, n, records) {
        assert forall|i: int|
            #![trigger records[i]]
            0 <= i < records.len() implies records[i].1.len() > 0 && records[i].1 == value_at(
            node,
            n,
            records[i].0,
        ) by {
            let (id, value) = records[i];
            assert(records.contains((id, value)));
            assert(had_value(node, n, id, value));
            lemma_value_by_version(node, n, id, value);
        }
        assert forall|id: ResourceId| (#[trigger] value_at(node, n, id)).len() > 0 implies exists|
            i: int,
        | 0 <= i < records.len() && (#[trigger] records[i]).0 == id by {
            let value = value_at(node, n, id);
            lemma_value_by_version(node, n, id, value);
            assert(had_value(node, n, id, value));
            assert(records.contains((id, value)));
            let i = choose|i: int| 0 <= i < records.len() && records[i] == (id, value);
            assert(records[i].0 == id);
        }
    }
}

/// What a node's contents say of a batch and of a version, key by key.
pub proof fn lemma_node_by_key(node: NodeModel, n: u64, id: ResourceId)
    ensures
        node.batches.contains_key(n) ==> node.block_of(n) == Some(node.batches[n].hash),
        !node.batches.contains_key(n) ==> node.block_of(n) is None,
        node.state_roots.contains_key(n) ==> node.root_at(n) == node.state_roots[n],
        !node.state_roots.contains_key(n) ==> is_zero(node.root_at(n)),
        node.rollbacks.contains_key(n) ==> node.rollbacks_of(n) == node.rollbacks[n],
        !node.rollbacks.contains_key(n) ==> node.rollbacks_of(n).len() == 0,
        node.values.contains_key((n, id)) ==> node.value_of(n, id) == node.values[(n, id)],
        !node.values.contains_key((n, id)) ==> node.value_of(n, id).len() == 0,
{
}

/// Batch `n` is the one a settlement in `block` pins: the last up to the tip, among the tip and
/// the retained batches, that comes from that block.
pub open spec fn pins(node: NodeModel, block: Hash32, n: u64) -> bool {
    &&& n <= node.tip_index
    &&& n == node.tip_index || n >= node.retained_root
    &&& node.batches.contains_key(n)
    &&& node.batches[n].hash == block
    &&& forall|j: u64|
        n < j <= node.tip_index && #[trigger] node.batches.contains_key(j)
            ==> node.batches[j].hash != block
}

/// The state root stored for batch `n`, which is 32 zero bytes where none is stored.
pub open spec fn stored_root(node: NodeModel, n: u64, root: [u8; 32]) -> bool {
    if node.state_roots.contains_key(n) {
        root == node.state_roots[n]
    } else {
        is_zero(root)
    }
}

proof fn lemma_search_pins(node: NodeModel, block: Hash32)
    ensures
        match search_down(node, node.tip_index, block) {
            Some(n) => pins(node, block, n),
            None => forall|n: u64| !#[trigger] pins(node, block, n),
        },
{
    lemma_search_finds_last(node, node.tip_index, block);
    match search_down(node, node.tip_index, block) {
        Some(n) => {
            assert(node.block_of(n) == Some(block));
            assert forall|j: u64|
                n < j <= node.tip_index && #[trigger] node.batches.contains_key(
                    j,
                ) implies node.batches[j].hash != block by {
                assert(node.block_of(j) != Some(block));
            }
        },
        None => {
            assert forall|n: u64| !#[trigger] pins(node, block, n) by {
                assert(node.block_of(n) == Some(block) || !pins(node, block, n));
            }
        },
    }
}

proof fn lemma_stored_root(node: NodeModel, n: u64)
    ensures
        forall|root: [u8; 32]| #[trigger] stored_root(node, n, root) <==> root == node.root_at(n),
{
    assert forall|root: [u8; 32]| #[trigger] stored_root(node, n, root) <==> root == node.root_at(
        n,
    ) by {
        if is_zero(root) {
            assert(root@ =~= EMPTY_HASH@);
            lemma_array_view_eq(root, EMPTY_HASH);
        }
    }
}

/// When a save succeeds, and which error it gives where it does not. It needs the covenant and the
/// lane, then a settlement at the tip, then a batch that the settlement pins; then both the root
/// stored for the batch and the root of the state after it are to be the settled one, and where
/// one is not, that one is reported.
pub proof fn lemma_save_by_case<H: NodeHasher>(
    identity: NodeIdentity,
    node: NodeModel,
    r: Result<(SaveSummary, Vec<u8>), SaveError>,
    n: u64,
    records: Seq<RecordModel>,
)
    requires
        save_outcome::<H>(identity, node, r),
    ensures
        identity.covenant_id is None || identity.lane_id is None ==> r == Err::<
            (SaveSummary, Vec<u8>),
            SaveError,
        >(SaveError::NoIdentity),
        identity.covenant_id is Some && identity.lane_id is Some
            && node.tip_metadata.last_settlement is None ==> r == Err::<
            (SaveSummary, Vec<u8>),
            SaveError,
        >(SaveError::NoSettlement),
        identity.covenant_id is Some && identity.lane_id is Some ==> (
        node.tip_metadata.last_settlement matches Some(s) ==> {
            &&& (forall|m: u64| !#[trigger] pins(node, s.containing_block, m)) ==> r == Err::<
                (SaveSummary, Vec<u8>),
                SaveError,
            >(SaveError::SettlementNotRetained)
            &&& pins(node, s.containing_block, n) ==> {
                &&& !stored_root(node, n, s.new_state) ==> (r matches Err(
                    SaveError::RootMismatch { computed, settlement },
                ) && stored_root(node, n, computed) && settlement == s.new_state)
                &&& stored_root(node, n, s.new_state) && lists_state(node, n, records) ==> {
                    if state_root::<H>(records) == s.new_state {
                        r is Ok
                    } else {
                        r == Err::<(SaveSummary, Vec<u8>), SaveError>(
                            SaveError::RootMismatch {
                                computed: state_root::<H>(records),
                                settlement: s.new_state,
                            },
                        )
                    }
                }
            }
        }),
{
    if identity.covenant_id is Some && identity.lane_id is Some {
        if let Some(s) = node.tip_metadata.last_settlement {
            lemma_search_pins(node, s.containing_block);
            if pins(node, s.containing_block, n) {
                let found = search_down(node, node.tip_index, s.containing_block)->0;
                assert(pins(node, s.containing_block, found));
                assert(found == n) by {
                    if found < n {
                        assert(node.batches.contains_key(n));
                    }
                    if n < found {
                        assert(node.batches.contains_key(found));
                    }
                }
                lemma_stored_root(node, n);
                assert(stored_root(node, n, node.root_at(n)));
                if stored_root(node, n, s.new_state) && lists_state(node, n, records) {
                    lemma_state_by_version(node, n, records);
                    let used = choose|used: Seq<RecordModel>|
                        #![trigger is_state_at(node, n, used)]
                        is_state_at(node, n, used) && sealed::<H>(identity, node, n, s, used, r);
                    lemma_state_has_one_root::<H>(node, n, used, records);
                }
            }
            if forall|m: u64| !#[trigger] pins(node, s.containing_block, m) {
                if let Some(m) = search_down(node, node.tip_index, s.containing_block) {
                    assert(pins(node, s.containing_block, m));
                }
            }
        }
    }
}

/// What a saved snapshot says of itself. Wherever its header is decoded from, the bytes that the
/// container has for it or the header that reading the container gives, it names the covenant,
/// the lane and the bootstrap transaction of the identity (32 zero bytes without one), the batch
/// that the tip's settlement pins, that batch's block and blue score, and the tip's settlement.
/// The summary names the same covenant, batch and settled state.
pub proof fn lemma_saved_header_by_field<H: NodeHasher>(
    identity: NodeIdentity,
    node: NodeModel,
    r: Result<(SaveSummary, Vec<u8>), SaveError>,
)
    requires
        save_outcome::<H>(identity, node, r),
        r is Ok,
    ensures
        ({
            let (summary, bytes) = r->Ok_0;
            let n = summary.committed_index;
            let length = le_value(bytes@.subrange(10, 14)) as int;
            let encoded = bytes@.subrange(14, 14 + length);
            &&& node.tip_metadata.last_settlement is Some
            &&& pins(node, node.tip_metadata.last_settlement->0.containing_block, n)
            &&& stored_root(node, n, node.tip_metadata.last_settlement->0.new_state)
            &&& identity.covenant_id == Some(summary.covenant_id)
            &&& summary.settlement_new_state == node.tip_metadata.last_settlement->0.new_state
            &&& parse_container(bytes@) matches Ok((read, _)) ==> read == encoded
            &&& exists|h: SnapshotHeader| #[trigger] header_bytes(h) == encoded
            &&& forall|h: SnapshotHeader| #[trigger]
                header_bytes(h) == encoded ==> {
                    let m = h.chain_block_metadata;
                    &&& identity.covenant_id == Some(h.covenant_id)
                    &&& identity.lane_id == Some(h.lane_id)
                    &&& match identity.bootstrap_txid {
                        Some(id) => h.bootstrap_txid == id,
                        None => is_zero(h.bootstrap_txid),
                    }
                    &&& h.committed_index == n
                    &&& m.hash == node.batches[n].hash
                    &&& m.blue_score == node.batches[n].blue_score
                    &&& m.last_settlement == node.tip_metadata.last_settlement
                }
        }),
{
    let (summary, bytes) = r->Ok_0;
    let s = node.tip_metadata.last_settlement->0;
    let n = search_down(node, node.tip_index, s.containing_block)->0;
    let records = choose|records: Seq<RecordModel>|
        #![trigger is_state_at(node, n, records)]
        is_state_at(node, n, records) && sealed::<H>(identity, node, n, s, records, r);
    lemma_search_pins(node, s.containing_block);
    lemma_stored_root(node, n);
    assert(stored_root(node, n, s.new_state));
    let header = snapshot_header(identity, node, n, s);
    let encoded = header_bytes(header);
    let end_of_header = 14 + encoded.len() as int;
    lemma_header_by_byte(header);
    lemma_container_by_byte(encoded, records.len(), records);
    lemma_byte_range_values();
    lemma_le_value_of_bytes(encoded.len(), 4);
    assert(bytes@.subrange(14, end_of_header) == encoded);
    if parse_container(bytes@) is Ok {
        let end = bytes@.len() - 32;
        let body = bytes@.take(end);
        assert(body.subrange(10, 14) =~= bytes@.subrange(10, 14));
        assert(body.subrange(14, end_of_header) =~= bytes@.subrange(14, end_of_header));
    }
    let z = vstd::array::spec_array_fill_for_copy_type::<u8, 32>(0u8);
    assert(z@ =~= Seq::new(32, |i: int| 0u8));
    lemma_array32(z);
    assert forall|h: SnapshotHeader| #[trigger] header_bytes(h) == encoded implies h == header by {
        lemma_header_encoding_injective(h, header);
    }
}

/// The bytes that a save gives, whatever the size of the values: a header, the number of records
/// that the summary says and as many records, which list the state after the batch, nothing else,
/// and the digest of all that. The root of the records is the settled one.
pub proof fn lemma_saved_bytes<H: NodeHasher>(
    identity: NodeIdentity,
    node: NodeModel,
    r: Result<(SaveSummary, Vec<u8>), SaveError>,
)
    requires
        save_outcome::<H>(identity, node, r),
        r is Ok,
    ensures
        exists|header: Seq<u8>, records: Seq<RecordModel>|
            {
                &&& r->Ok_0.1@ == #[trigger] laid_out(header, records, Seq::empty())
                    + Sha256::digest(laid_out(header, records, Seq::empty()))@
                &&& header.len() == 213
                &&& records.len() == r->Ok_0.0.record_count
                &&& lists_state(node, r->Ok_0.0.committed_index, records)
                &&& state_root::<H>(records) == r->Ok_0.0.settlement_new_state
            },
{
    let (summary, bytes) = r->Ok_0;
    let s = node.tip_metadata.last_settlement->0;
    let n = search_down(node, node.tip_index, s.containing_block)->0;
    let records = choose|records: Seq<RecordModel>|
        #![trigger is_state_at(node, n, records)]
        is_state_at(node, n, records) && sealed::<H>(identity, node, n, s, records, r);
    let header = snapshot_header(identity, node, n, s);
    lemma_header_by_byte(header);
    lemma_state_by_version(node, n, records);
    lemma_laid_out(header_bytes(header), records, Seq::empty());
    assert(laid_out(header_bytes(header), records, Seq::empty()) =~= body_bytes(
        header_bytes(header),
        records.len(),
        records,
    ));
}

/// What a saved snapshot holds: reading it, where every value fits the length that the format has
/// for it, gives records that list the state after the batch, as many as the summary says, and
/// their root is the settled one.
pub proof fn lemma_saved_records_by_version<H: NodeHasher>(
    identity: NodeIdentity,
    node: NodeModel,
    r: Result<(SaveSummary, Vec<u8>), SaveError>,
)
    requires
        save_outcome::<H>(identity, node, r),
        r is Ok,
        forall|k: (u64, ResourceId)| #[trigger]
            node.values.contains_key(k) ==> node.values[k].len() < 0x1_0000_0000,
    ensures
        ({
            let (summary, bytes) = r->Ok_0;
            &&& parse_container(bytes@) is Ok
            &&& lists_state(node, summary.committed_index, parse_container(bytes@)->Ok_0.1)
            &&& summary.record_count == parse_container(bytes@)->Ok_0.1.len()
            &&& state_root::<H>(parse_container(bytes@)->Ok_0.1) == summary.settlement_new_state
        }),
{
    let (summary, bytes) = r->Ok_0;
    lemma_saved_snapshot_restores::<H>(identity, node, r);
    let n = summary.committed_index;
    lemma_state_by_version(node, n, parse_container(bytes@)->Ok_0.1);
}

} // verus!
