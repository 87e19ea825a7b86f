//! The container of a snapshot: an opaque header and a list of records, sealed by a digest.

use vstd::prelude::*;
use vstd::slice::slice_subrange;

use crate::bytes::{
    bytes_equal, copy32, copy_bytes, lemma_array32_view, lemma_byte_range_values,
    lemma_le_bytes_len, lemma_le_bytes_of_value, lemma_le_value_of_bytes, le_bytes, le_value,
    push_bytes, push_le, read_le,
};
use crate::hashing::{Hasher, Sha256};
use crate::smt::node::ResourceId;
use crate::text::{decimal, decimal_text};

verus! {

/// The first bytes of a container: `VPSNAP01`. The trailing digits change with the layout.
pub const MAGIC: [u8; 8] = [0x56, 0x50, 0x53, 0x4e, 0x41, 0x50, 0x30, 0x31];

/// Version of the framing. Readers reject any other.
pub const FORMAT_VERSION: u16 = 1;

/// The latest state of one resource.
#[derive(Clone, Debug, PartialEq, Eq)]
pub struct Record {
    pub resource_id: ResourceId,
    pub value: Vec<u8>,
}

/// A record's resource and the bytes of its value.
pub type RecordModel = (ResourceId, Seq<u8>);

impl View for Record {
    type V = RecordModel;

    open spec fn view(&self) -> RecordModel {
        (self.resource_id, self.value@)
    }
}

/// The views of a list of records.
pub open spec fn record_models(records: Seq<Record>) -> Seq<RecordModel> {
    records.map_values(|r: Record| r@)
}

/// `std::io::Error` as a type that errors of the library carry along unread.
#[verifier::external_type_specification]
#[verifier::external_body]
pub struct ExIoError(std::io::Error);

/// Why a container could not be read or written.
#[derive(Debug)]
pub enum SnapshotError {
    /// Reading or writing the file failed.
    Io(std::io::Error),
    /// The file does not begin with [`MAGIC`].
    BadMagic,
    /// The framing version is not [`FORMAT_VERSION`].
    UnsupportedVersion(u16),
    /// The digest is not that of the body.
    DigestMismatch,
    /// The file ends early.
    Truncated,
}

impl From<std::io::Error> for SnapshotError {
    fn from(e: std::io::Error) -> (r: SnapshotError)
        ensures
            r == SnapshotError::Io(e),
    {
        SnapshotError::Io(e)
    }
}

impl vstd::std_specs::convert::FromSpecImpl<std::io::Error> for SnapshotError {
    open spec fn obeys_from_spec() -> bool {
        true
    }

    open spec fn from_spec(e: std::io::Error) -> SnapshotError {
        SnapshotError::Io(e)
    }
}

/// Calls `std::io::Error::to_string`. What the text says is up to the operating system and stays
/// unsaid.
#[verifier::external_body]
pub(crate) fn io_error_text(e: &std::io::Error) -> (r: String) {
    e.to_string()
}

/// How an error of reading or writing a file is worded, given its own text.
pub fn io_message(text: &str) -> (r: String)
    ensures
        r@ == "snapshot io error: "@ + text@,
{
    "snapshot io error: ".to_owned().concat(text)
}

impl SnapshotError {
    /// The error in words.
    pub fn message(&self) -> (r: String)
        ensures
            match self {
                SnapshotError::Io(_) => "snapshot io error: "@.is_prefix_of(r@),
                SnapshotError::BadMagic => r@ == "not a vprogs snapshot (bad magic)"@,
                SnapshotError::UnsupportedVersion(v) => r@
                    == "unsupported snapshot format version "@ + decimal(*v as nat),
                SnapshotError::DigestMismatch => r@
                    == "snapshot digest mismatch (corrupt or tampered)"@,
                SnapshotError::Truncated => r@ == "snapshot truncated"@,
            },
    {
        match self {
            SnapshotError::Io(e) => {
                let text = io_error_text(e);
                let r = io_message(text.as_str());
                assert(r@.take("snapshot io error: "@.len() as int) =~= "snapshot io error: "@);
                r
            },
            SnapshotError::BadMagic => "not a vprogs snapshot (bad magic)".to_owned(),
            SnapshotError::UnsupportedVersion(v) => {
                let text = decimal_text(*v as u64);
                "unsupported snapshot format version ".to_owned().concat(text.as_str())
            },
            SnapshotError::DigestMismatch => {
                "snapshot digest mismatch (corrupt or tampered)".to_owned()
            },
            SnapshotError::Truncated => "snapshot truncated".to_owned(),
        }
    }
}

/// One record in a container: its resource, the length of its value in four bytes, its value.
pub open spec fn record_bytes(record: RecordModel) -> Seq<u8> {
    record.0@ + le_bytes(record.1.len(), 4) + record.1
}

/// The records of a container, one after another.
pub open spec fn records_bytes(records: Seq<RecordModel>) -> Seq<u8>
    decreases records.len(),
{
    if records.len() == 0 {
        Seq::empty()
    } else {
        record_bytes(records[0]) + records_bytes(records.drop_first())
    }
}

/// What precedes the header's bytes: the magic, the version, the length of the header.
pub open spec fn preamble(header_len: nat) -> Seq<u8> {
    MAGIC@ + le_bytes(FORMAT_VERSION as nat, 2) + le_bytes(header_len, 4)
}

/// A container without its digest.
pub open spec fn body_bytes(header: Seq<u8>, count: nat, records: Seq<RecordModel>) -> Seq<u8> {
    preamble(header.len()) + header + le_bytes(count, 8) + records_bytes(records)
}

/// A container: its body and the SHA-256 digest of the body.
pub open spec fn container_bytes(header: Seq<u8>, count: nat, records: Seq<RecordModel>) -> Seq<
    u8,
> {
    body_bytes(header, count, records) + Sha256::digest(body_bytes(header, count, records))@
}

/// Reads `count` records off the head of `s`; none if `s` ends before the last of them does.
pub open spec fn parse_records(s: Seq<u8>, count: nat) -> Option<Seq<RecordModel>>
    decreases count,
{
    if count == 0 {
        Some(Seq::empty())
    } else if s.len() < 36 || s.len() < 36 + le_value(s.subrange(32, 36)) {
        None
    } else {
        let n = le_value(s.subrange(32, 36)) as int;
        match parse_records(s.skip(36 + n), (count - 1) as nat) {
            None => None,
            Some(rest) => Some(
                seq![(crate::bytes::array32(s.take(32)), s.subrange(36, 36 + n))] + rest,
            ),
        }
    }
}

/// Reads a body of at least ten bytes, whose magic and digest have been checked.
pub open spec fn parse_body(body: Seq<u8>) -> Result<(Seq<u8>, Seq<RecordModel>), SnapshotError> {
    let version = le_value(body.subrange(8, 10));
    if version != FORMAT_VERSION {
        Err(SnapshotError::UnsupportedVersion(version as u16))
    } else if body.len() < 14 || body.len() < 22 + le_value(body.subrange(10, 14)) {
        Err(SnapshotError::Truncated)
    } else {
        let n = le_value(body.subrange(10, 14)) as int;
        let count = le_value(body.subrange(14 + n, 22 + n));
        match parse_records(body.skip(22 + n), count) {
            None => Err(SnapshotError::Truncated),
            Some(records) => Ok((body.subrange(14, 14 + n), records)),
        }
    }
}

/// Reads a container whose bytes but for the last 32 have digest `digest`. The magic is checked
/// first, so that a foreign file is told apart whatever its length; then the digest; then the
/// version. Bytes of the body beyond the last record are passed over.
pub open spec fn parse_sealed(all: Seq<u8>, digest: Seq<u8>) -> Result<
    (Seq<u8>, Seq<RecordModel>),
    SnapshotError,
> {
    if all.len() < 8 {
        Err(SnapshotError::Truncated)
    } else if all.take(8) != MAGIC@ {
        Err(SnapshotError::BadMagic)
    } else if all.len() < 42 {
        Err(SnapshotError::Truncated)
    } else if all.skip(all.len() - 32) != digest {
        Err(SnapshotError::DigestMismatch)
    } else {
        parse_body(all.take(all.len() - 32))
    }
}

/// Reads a container, sealed with SHA-256.
pub open spec fn parse_container(all: Seq<u8>) -> Result<
    (Seq<u8>, Seq<RecordModel>),
    SnapshotError,
> {
    parse_sealed(all, Sha256::digest(all.take(all.len() - 32))@)
}

/// Frames `header` and `records`: a container without its digest.
pub fn frame_body(header: &[u8], records: &Vec<Record>) -> (body: Vec<u8>)
    ensures
        body@ == body_bytes(header@, records@.len(), record_models(records@)),
{
    let ghost models = record_models(records@);
    let ghost whole = body_bytes(header@, records@.len(), models);
    let mut body: Vec<u8> = Vec::new();
    push_bytes(&mut body, MAGIC.as_slice());
    push_le(&mut body, FORMAT_VERSION as u64, 2);
    push_le(&mut body, header.len() as u64, 4);
    push_bytes(&mut body, header);
    push_le(&mut body, records.len() as u64, 8);
    let mut i: usize = 0;
    proof {
        assert(models.skip(0) =~= models);
        assert(body@ + records_bytes(models) =~= whole);
    }
    while i < records.len()
        invariant
            i <= records@.len(),
            models == record_models(records@),
            body@ + records_bytes(models.skip(i as int)) == whole,
        decreases records@.len() - i,
    {
        let ghost before = body@;
        push_bytes(&mut body, records[i].resource_id.as_slice());
        push_le(&mut body, records[i].value.len() as u64, 4);
        push_bytes(&mut body, records[i].value.as_slice());
        proof {
            let rest = models.skip(i as int);
            assert(rest.drop_first() =~= models.skip(i + 1));
            assert(rest[0] == records@[i as int]@);
            assert(body@ =~= before + record_bytes(rest[0]));
            assert(body@ + records_bytes(models.skip(i + 1)) =~= before + records_bytes(rest));
        }
        i += 1;
    }
    assert(body@ =~= whole);
    body
}

/// Appends to `w` the container of `header` and `records`.
pub fn write_container(
    w: &mut Vec<u8>,
    header: &[u8],
    record_count: u64,
    records: Vec<Record>,
) -> (r: Result<(), SnapshotError>)
    requires
        record_count == records@.len(),
    ensures
        r is Ok,
        final(w)@ == old(w)@ + container_bytes(
            header@,
            record_count as nat,
            record_models(records@),
        ),
{
    let body = frame_body(header, &records);
    let digest = Sha256::hash(body.as_slice());
    push_bytes(w, body.as_slice());
    push_bytes(w, digest.as_slice());
    assert(w@ =~= old(w)@ + container_bytes(
        header@,
        record_count as nat,
        record_models(records@),
    ));
    Ok(())
}

/// Takes `n` bytes off the head of `r`.
fn read_exact<'a>(r: &mut &'a [u8], n: usize) -> (b: Result<&'a [u8], SnapshotError>)
    ensures
        match b {
            Ok(b) => n <= old(r)@.len() && b@ == old(r)@.take(n as int) && final(r)@
                == old(r)@.skip(n as int),
            Err(e) => n > old(r)@.len() && e == SnapshotError::Truncated,
        },
{
    let all: &'a [u8] = *r;
    if all.len() < n {
        return Err(SnapshotError::Truncated);
    }
    let head = slice_subrange(all, 0, n);
    *r = slice_subrange(all, n, all.len());
    assert(head@ =~= all@.take(n as int));
    assert(r@ =~= all@.skip(n as int));
    Ok(head)
}

/// Takes a number of two bytes off the head of `r`.
fn read_u16(r: &mut &[u8]) -> (v: Result<u16, SnapshotError>)
    ensures
        match v {
            Ok(v) => 2 <= old(r)@.len() && v == le_value(old(r)@.take(2)) && final(r)@ == old(
                r,
            )@.skip(2),
            Err(e) => 2 > old(r)@.len() && e == SnapshotError::Truncated,
        },
{
    match read_exact(r, 2) {
        Ok(b) => {
            proof {
                lemma_le_bytes_of_value(b@);
                lemma_byte_range_values();
            }
            Ok(read_le(b) as u16)
        },
        Err(e) => Err(e),
    }
}

/// Takes a number of four bytes off the head of `r`.
fn read_u32(r: &mut &[u8]) -> (v: Result<u32, SnapshotError>)
    ensures
        match v {
            Ok(v) => 4 <= old(r)@.len() && v == le_value(old(r)@.take(4)) && final(r)@ == old(
                r,
            )@.skip(4),
            Err(e) => 4 > old(r)@.len() && e == SnapshotError::Truncated,
        },
{
    match read_exact(r, 4) {
        Ok(b) => {
            proof {
                lemma_le_bytes_of_value(b@);
                lemma_byte_range_values();
            }
            Ok(read_le(b) as u32)
        },
        Err(e) => Err(e),
    }
}

/// Takes a number of eight bytes off the head of `r`.
fn read_u64(r: &mut &[u8]) -> (v: Result<u64, SnapshotError>)
    ensures
        match v {
            Ok(v) => 8 <= old(r)@.len() && v == le_value(old(r)@.take(8)) && final(r)@ == old(
                r,
            )@.skip(8),
            Err(e) => 8 > old(r)@.len() && e == SnapshotError::Truncated,
        },
{
    match read_exact(r, 8) {
        Ok(b) => Ok(read_le(b)),
        Err(e) => Err(e),
    }
}

/// Takes one record off the head of `r`.
fn read_record(r: &mut &[u8]) -> (rec: Result<Record, SnapshotError>)
    ensures
        ({
            let s = old(r)@;
            let n = le_value(s.subrange(32, 36)) as int;
            match rec {
                Ok(rec) => {
                    &&& s.len() >= 36 + n
                    &&& s.len() >= 36
                    &&& rec@ == (crate::bytes::array32(s.take(32)), s.subrange(36, 36 + n))
                    &&& final(r)@ == s.skip(36 + n)
                },
                Err(e) => (s.len() < 36 || s.len() < 36 + n) && e == SnapshotError::Truncated,
            }
        }),
{
    let ghost s = r@;
    let id = match read_exact(r, 32) {
        Ok(b) => copy32(b),
        Err(e) => return Err(e),
    };
    proof {
        crate::bytes::lemma_array32(id);
        if s.len() >= 36 {
            assert(s.skip(32).take(4) =~= s.subrange(32, 36));
        }
    }
    let len = match read_u32(r) {
        Ok(v) => v as usize,
        Err(e) => return Err(e),
    };
    let value = match read_exact(r, len) {
        Ok(b) => copy_bytes(b),
        Err(e) => return Err(e),
    };
    proof {
        assert(s.skip(32).skip(4).take(len as int) =~= s.subrange(36, 36 + len));
        assert(s.skip(32).skip(4).skip(len as int) =~= s.skip(36 + len));
    }
    Ok(Record { resource_id: id, value })
}

/// Takes `count` records off the head of `r`.
fn read_records(r: &mut &[u8], count: u64) -> (recs: Result<Vec<Record>, SnapshotError>)
    ensures
        match recs {
            Ok(v) => parse_records(old(r)@, count as nat) == Some(record_models(v@)),
            Err(e) => parse_records(old(r)@, count as nat) is None && e == SnapshotError::Truncated,
        },
{
    let ghost s = r@;
    let mut records: Vec<Record> = Vec::new();
    let mut i: u64 = 0;
    proof {
        match parse_records(s, count as nat) {
            Some(all) => {
                assert(record_models(records@) + all =~= all);
            },
            None => {},
        }
    }
    while i < count
        invariant
            i <= count,
            s == old(r)@,
            match parse_records(r@, (count - i) as nat) {
                None => parse_records(s, count as nat) is None,
                Some(rest) => parse_records(s, count as nat) == Some(
                    record_models(records@) + rest,
                ),
            },
        decreases count - i,
    {
        let ghost now = r@;
        let ghost had = records@;
        match read_record(r) {
            Err(e) => return Err(e),
            Ok(rec) => {
                records.push(rec);
                proof {
                    assert(record_models(records@) =~= record_models(had).push(rec@));
                    match parse_records(r@, (count - i - 1) as nat) {
                        Some(rest) => {
                            assert(record_models(had) + (seq![rec@] + rest) =~= record_models(
                                records@,
                            ) + rest);
                        },
                        None => {},
                    }
                }
            },
        }
        i += 1;
    }
    assert(record_models(records@) + Seq::empty() =~= record_models(records@));
    Ok(records)
}

/// Reads and checks a container whose bytes but for the last 32 have digest `body_digest`.
pub fn read_sealed(all: &[u8], body_digest: &[u8; 32]) -> (v: Result<
    (Vec<u8>, Vec<Record>),
    SnapshotError,
>)
    ensures
        match v {
            Ok((header, records)) => parse_sealed(all@, body_digest@) == Ok::<_, SnapshotError>(
                (header@, record_models(records@)),
            ),
            Err(e) => parse_sealed(all@, body_digest@) == Err::<
                (Seq<u8>, Seq<RecordModel>),
                SnapshotError,
            >(e),
        },
{
    if all.len() < 8 {
        return Err(SnapshotError::Truncated);
    }
    let magic = slice_subrange(all, 0, 8);
    assert(magic@ =~= all@.take(8));
    if !bytes_equal(magic, MAGIC.as_slice()) {
        return Err(SnapshotError::BadMagic);
    }
    if all.len() < 42 {
        return Err(SnapshotError::Truncated);
    }
    let at: usize = all.len() - 32;
    let body = slice_subrange(all, 0, at);
    let digest = slice_subrange(all, at, all.len());
    assert(body@ =~= all@.take(all@.len() - 32));
    assert(digest@ =~= all@.skip(all@.len() - 32));
    if !bytes_equal(digest, body_digest.as_slice()) {
        return Err(SnapshotError::DigestMismatch);
    }
    let ghost b = body@;
    let mut cur: &[u8] = slice_subrange(body, 8, body.len());
    assert(cur@ =~= b.skip(8));
    assert(b.skip(8).take(2) =~= b.subrange(8, 10));
    let version = match read_u16(&mut cur) {
        Ok(v) => v,
        Err(e) => return Err(e),
    };
    if version != FORMAT_VERSION {
        return Err(SnapshotError::UnsupportedVersion(version));
    }
    assert(cur@ =~= b.skip(10));
    proof {
        if b.len() >= 14 {
            assert(b.skip(10).take(4) =~= b.subrange(10, 14));
        }
    }
    let header_len = match read_u32(&mut cur) {
        Ok(v) => v as usize,
        Err(e) => return Err(e),
    };
    assert(cur@ =~= b.skip(14));
    let header = match read_exact(&mut cur, header_len) {
        Ok(h) => copy_bytes(h),
        Err(e) => return Err(e),
    };
    assert(header@ =~= b.subrange(14, 14 + header_len));
    assert(cur@ =~= b.skip(14 + header_len));
    proof {
        if b.len() >= 22 + header_len {
            assert(b.skip(14 + header_len).take(8) =~= b.subrange(
                14 + header_len,
                22 + header_len,
            ));
        }
    }
    let record_count = match read_u64(&mut cur) {
        Ok(v) => v,
        Err(e) => return Err(e),
    };
    assert(cur@ =~= b.skip(22 + header_len));
    match read_records(&mut cur, record_count) {
        Ok(records) => Ok((header, records)),
        Err(e) => Err(e),
    }
}

/// Reads and checks a container, which is all that `r` holds, and gives back its header and its
/// records.
pub fn read_container(r: &mut &[u8]) -> (v: Result<(Vec<u8>, Vec<Record>), SnapshotError>)
    ensures
        match v {
            Ok((header, records)) => parse_container(old(r)@) == Ok::<_, SnapshotError>(
                (header@, record_models(records@)),
            ),
            Err(e) => parse_container(old(r)@) == Err::<
                (Seq<u8>, Seq<RecordModel>),
                SnapshotError,
            >(e),
        },
        final(r)@.len() == 0,
{
    let all: &[u8] = *r;
    *r = slice_subrange(all, all.len(), all.len());
    if all.len() < 42 {
        // Too short to hold a digest: none is looked at.
        return read_sealed(all, &[0u8; 32]);
    }
    let body = slice_subrange(all, 0, all.len() - 32);
    assert(body@ =~= all@.take(all@.len() - 32));
    let body_digest = Sha256::hash(body);
    read_sealed(all, &body_digest)
}

/// Records are read back as they were written, and what follows them is left.
pub proof fn lemma_parse_records(records: Seq<RecordModel>, tail: Seq<u8>)
    requires
        forall|i: int| 0 <= i < records.len() ==> (#[trigger] records[i]).1.len() < 0x1_0000_0000,
    ensures
        parse_records(records_bytes(records) + tail, records.len()) == Some(records),
    decreases records.len(),
{
    let s = records_bytes(records) + tail;
    if records.len() > 0 {
        let rec = records[0];
        let n = rec.1.len() as int;
        let rest = records.drop_first();
        lemma_le_bytes_len(rec.1.len(), 4);
        lemma_byte_range_values();
        lemma_le_value_of_bytes(rec.1.len(), 4);
        assert(s.subrange(32, 36) =~= le_bytes(rec.1.len(), 4));
        assert(s.take(32) =~= rec.0@);
        crate::bytes::lemma_array32(rec.0);
        assert(s.subrange(36, 36 + n) =~= rec.1);
        assert(s.skip(36 + n) =~= records_bytes(rest) + tail);
        assert forall|i: int| 0 <= i < rest.len() implies (#[trigger] rest[i]).1.len()
            < 0x1_0000_0000 by {
            assert(rest[i] == records[i + 1]);
        }
        lemma_parse_records(rest, tail);
        assert(seq![rec] + rest =~= records);
    } else {
        assert(records =~= Seq::empty());
    }
}

/// Reading what was written gives back the header and the records, as long as every length fits
/// the bytes that the format has for it.
pub proof fn lemma_read_after_write(header: Seq<u8>, records: Seq<RecordModel>)
    requires
        header.len() < 0x1_0000_0000,
        records.len() < 0x1_0000_0000_0000_0000,
        forall|i: int| 0 <= i < records.len() ==> (#[trigger] records[i]).1.len() < 0x1_0000_0000,
    ensures
        parse_container(container_bytes(header, records.len(), records)) == Ok::<
            _,
            SnapshotError,
        >((header, records)),
{
    let body = body_bytes(header, records.len(), records);
    let all = container_bytes(header, records.len(), records);
    let n = header.len() as int;
    lemma_le_bytes_len(FORMAT_VERSION as nat, 2);
    lemma_le_bytes_len(header.len(), 4);
    lemma_le_bytes_len(records.len(), 8);
    lemma_byte_range_values();
    lemma_le_value_of_bytes(FORMAT_VERSION as nat, 2);
    lemma_le_value_of_bytes(header.len(), 4);
    lemma_le_value_of_bytes(records.len(), 8);
    assert(all.take(8) =~= MAGIC@);
    assert(all.take(all.len() - 32) =~= body);
    assert(all.skip(all.len() - 32) =~= Sha256::digest(body)@);
    assert(body.subrange(8, 10) =~= le_bytes(FORMAT_VERSION as nat, 2));
    assert(body.subrange(10, 14) =~= le_bytes(header.len(), 4));
    assert(body.subrange(14, 14 + n) =~= header);
    assert(body.subrange(14 + n, 22 + n) =~= le_bytes(records.len(), 8));
    assert(body.skip(22 + n) =~= records_bytes(records) + Seq::empty());
    lemma_parse_records(records, Seq::empty());
}

/// A container whose digest was replaced by any other 32 bytes is rejected for its digest.
pub proof fn lemma_wrong_digest_rejected(
    header: Seq<u8>,
    count: nat,
    records: Seq<RecordModel>,
    digest: Seq<u8>,
)
    requires
        digest.len() == 32,
        digest != Sha256::digest(body_bytes(header, count, records))@,
    ensures
        parse_container(body_bytes(header, count, records) + digest) == Err::<
            (Seq<u8>, Seq<RecordModel>),
            SnapshotError,
        >(SnapshotError::DigestMismatch),
{
    let body = body_bytes(header, count, records);
    let all = body + digest;
    lemma_le_bytes_len(FORMAT_VERSION as nat, 2);
    assert(all.take(8) =~= MAGIC@);
    assert(all.take(all.len() - 32) =~= body);
    assert(all.skip(all.len() - 32) =~= digest);
}

/// The records read are those whose bytes stand at the head of `s`.
pub proof fn lemma_parsed_records(s: Seq<u8>, count: nat)
    requires
        parse_records(s, count) is Some,
    ensures
        ({
            let records = parse_records(s, count)->0;
            &&& records.len() == count
            &&& records_bytes(records).is_prefix_of(s)
        }),
    decreases count,
{
    if count > 0 {
        let n = le_value(s.subrange(32, 36)) as int;
        let rest = parse_records(s.skip(36 + n), (count - 1) as nat)->0;
        let records = parse_records(s, count)->0;
        lemma_parsed_records(s.skip(36 + n), (count - 1) as nat);
        lemma_le_bytes_of_value(s.subrange(32, 36));
        assert(records.drop_first() =~= rest);
        lemma_array32_view(s.take(32));
        assert(records_bytes(records) =~= s.take(36 + n) + records_bytes(rest));
        assert(s.take(36 + n) + s.skip(36 + n) =~= s);
        assert(records_bytes(records) =~= s.take(records_bytes(records).len() as int));
    }
}

/// A container that is accepted begins with the bytes that writing its header and its records
/// gives, and ends with the digest of all before it.
pub proof fn lemma_accepted_was_written(all: Seq<u8>)
    requires
        parse_container(all) is Ok,
    ensures
        ({
            let (header, records) = parse_container(all)->Ok_0;
            let body = all.take(all.len() - 32);
            &&& body_bytes(header, records.len(), records).is_prefix_of(body)
            &&& all == body + Sha256::digest(body)@
        }),
{
    let (header, records) = parse_container(all)->Ok_0;
    let body = all.take(all.len() - 32);
    let n = le_value(body.subrange(10, 14)) as int;
    let count = le_value(body.subrange(14 + n, 22 + n));
    lemma_parsed_records(body.skip(22 + n), count);
    lemma_le_bytes_of_value(body.subrange(8, 10));
    lemma_le_bytes_of_value(body.subrange(10, 14));
    lemma_le_bytes_of_value(body.subrange(14 + n, 22 + n));
    assert(body.take(8) =~= all.take(8));
    assert(preamble(header.len()) =~= body.take(14));
    assert(body_bytes(header, count, records) =~= body.take(22 + n) + records_bytes(records));
    assert(body.take(22 + n) + body.skip(22 + n) =~= body);
    let whole = body_bytes(header, count, records);
    assert(whole =~= body.take(whole.len() as int));
    assert(all =~= body + all.skip(all.len() - 32));
}

} // verus!
