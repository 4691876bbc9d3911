//! The index record store: an append-only log of `{path, volume_id,
//! offset, length}` records.
//!
//! One record is appended to the index file per successful write and no
//! record is ever rewritten, so the file is a write-ahead log of index
//! mutations, not a snapshot: later records for the same path supersede
//! earlier ones only in the in-memory lookup, never on disk.
//!
//! A record is self-delimiting: a four-byte little-endian length prefix for
//! the path, the path bytes, then volume id, offset and length as
//! fixed-width little-endian integers. A trailing fragment too short to
//! form a whole record (a torn final append) is ignored by replay rather
//! than poisoning the whole file.

use vstd::bytes::*;
use vstd::prelude::*;

verus! {

/// Bytes of the path-length prefix that opens every record.
pub const PATH_PREFIX_LENGTH: usize = 4;

/// Bytes of the three fixed-width integer fields that close every record.
pub const RECORD_TAIL_LENGTH: usize = 24;

/// The in-memory form of one index record, keyed implicitly by its path:
/// where the needle lives and how many bytes it takes, header included.
#[derive(Clone, Copy, Debug, PartialEq, Eq, Structural)]
pub struct RawIndex {
    pub volume_id: u64,
    pub offset: u64,
    pub length: u64,
}

impl RawIndex {
    /// The first byte offset past the needle this entry points at.
    pub open spec fn end(self) -> int {
        self.offset + self.length
    }

    pub fn new(volume_id: u64, offset: u64, length: u64) -> (r: RawIndex)
        ensures
            r == (RawIndex { volume_id, offset, length }),
    {
        RawIndex { volume_id, offset, length }
    }
}

impl Default for RawIndex {
    /// The entry an empty index replays to: everything zero.
    fn default() -> (r: RawIndex)
        ensures
            r == (RawIndex { volume_id: 0u64, offset: 0u64, length: 0u64 }),
    {
        RawIndex { volume_id: 0, offset: 0, length: 0 }
    }
}

/// One persisted index record: the key it indexes plus its entry fields.
#[derive(Debug)]
pub struct IndexRecord {
    pub path: Vec<u8>,
    pub volume_id: u64,
    pub offset: u64,
    pub length: u64,
}

/// The mathematical shape of a persisted index record.
pub struct IndexRecordView {
    pub path: Seq<u8>,
    pub volume_id: u64,
    pub offset: u64,
    pub length: u64,
}

impl IndexRecordView {
    /// The in-memory entry this record replays to.
    pub open spec fn raw(self) -> RawIndex {
        RawIndex { volume_id: self.volume_id, offset: self.offset, length: self.length }
    }

    /// The path fits the record's length prefix.
    pub open spec fn wf(self) -> bool {
        self.path.len() <= u32::MAX
    }
}

impl View for IndexRecord {
    type V = IndexRecordView;

    open spec fn view(&self) -> IndexRecordView {
        IndexRecordView {
            path: self.path@,
            volume_id: self.volume_id,
            offset: self.offset,
            length: self.length,
        }
    }
}

/// The views of a sequence of records.
pub open spec fn records_view(records: Seq<IndexRecord>) -> Seq<IndexRecordView> {
    records.map_values(|r: IndexRecord| r@)
}

/// The bytes one record takes in the index file.
pub open spec fn spec_encode_record(record: IndexRecordView) -> Seq<u8>
    recommends
        record.wf(),
{
    spec_u32_to_le_bytes(record.path.len() as u32) + record.path
        + spec_u64_to_le_bytes(record.volume_id) + spec_u64_to_le_bytes(record.offset)
        + spec_u64_to_le_bytes(record.length)
}

/// The bytes of a whole record log, in append order.
pub open spec fn spec_encode_records(records: Seq<IndexRecordView>) -> Seq<u8>
    decreases records.len(),
{
    if records.len() == 0 {
        Seq::empty()
    } else {
        spec_encode_records(records.drop_last()) + spec_encode_record(records.last())
    }
}

/// How many bytes the first record of `bytes` spans, counting its prefix
/// and fixed tail; meaningful only when at least the prefix is present.
pub open spec fn spec_first_record_len(bytes: Seq<u8>) -> int
    recommends
        bytes.len() >= PATH_PREFIX_LENGTH,
{
    PATH_PREFIX_LENGTH + RECORD_TAIL_LENGTH + spec_u32_from_le_bytes(
        bytes.subrange(0, PATH_PREFIX_LENGTH as int),
    )
}

/// Whether `bytes` opens with one complete record.
pub open spec fn has_complete_record(bytes: Seq<u8>) -> bool {
    bytes.len() >= PATH_PREFIX_LENGTH && bytes.len() >= spec_first_record_len(bytes)
}

/// The first record of `bytes`; meaningful only when one is complete.
pub open spec fn spec_first_record(bytes: Seq<u8>) -> IndexRecordView
    recommends
        has_complete_record(bytes),
{
    let path_len = spec_u32_from_le_bytes(bytes.subrange(0, PATH_PREFIX_LENGTH as int)) as int;
    let tail = PATH_PREFIX_LENGTH + path_len;
    IndexRecordView {
        path: bytes.subrange(PATH_PREFIX_LENGTH as int, tail),
        volume_id: spec_u64_from_le_bytes(bytes.subrange(tail, tail + 8)),
        offset: spec_u64_from_le_bytes(bytes.subrange(tail + 8, tail + 16)),
        length: spec_u64_from_le_bytes(bytes.subrange(tail + 16, tail + 24)),
    }
}

/// Every complete record of `bytes`, in file order; a trailing fragment is
/// ignored.
pub open spec fn spec_parse_records(bytes: Seq<u8>) -> Seq<IndexRecordView>
    decreases bytes.len(),
{
    if has_complete_record(bytes) {
        seq![spec_first_record(bytes)] + spec_parse_records(
            bytes.skip(spec_first_record_len(bytes)),
        )
    } else {
        Seq::empty()
    }
}

/// How many bytes of `bytes` replay consumes: the span of its complete
/// records, without any trailing fragment.
pub open spec fn spec_parsed_len(bytes: Seq<u8>) -> int
    decreases bytes.len(),
{
    if has_complete_record(bytes) {
        spec_first_record_len(bytes) + spec_parsed_len(bytes.skip(spec_first_record_len(bytes)))
    } else {
        0
    }
}

/// Append one record's bytes for `path` and `entry` to a log.
pub fn encode_index_record(out: &mut Vec<u8>, path: &[u8], volume_id: u64, offset: u64, length: u64)
    requires
        path@.len() <= u32::MAX,
    ensures
        final(out)@ == old(out)@ + spec_encode_record(
            IndexRecordView { path: path@, volume_id, offset, length },
        ),
{
    let prefix = u32_to_le_bytes(path.len() as u32);
    out.extend_from_slice(prefix.as_slice());
    out.extend_from_slice(path);
    let id_bytes = u64_to_le_bytes(volume_id);
    out.extend_from_slice(id_bytes.as_slice());
    let offset_bytes = u64_to_le_bytes(offset);
    out.extend_from_slice(offset_bytes.as_slice());
    let length_bytes = u64_to_le_bytes(length);
    out.extend_from_slice(length_bytes.as_slice());
    assert(out@ =~= old(out)@ + spec_encode_record(
        IndexRecordView { path: path@, volume_id, offset, length },
    ));
}

/// Replay a log: every complete record in file order, and how many bytes
/// they span. Bytes past that span form an incomplete trailing fragment.
pub fn replay_index_records(bytes: &[u8]) -> (r: (Vec<IndexRecord>, usize))
    ensures
        records_view(r.0@) == spec_parse_records(bytes@),
        r.1 == spec_parsed_len(bytes@),
        r.1 <= bytes@.len(),
{
    let mut records: Vec<IndexRecord> = Vec::new();
    let mut pos: usize = 0;
    proof {
        assert(bytes@.skip(0) =~= bytes@);
        assert(records_view(records@) + spec_parse_records(bytes@) =~= spec_parse_records(
            bytes@,
        ));
    }
    loop
        invariant
            pos <= bytes@.len(),
            spec_parse_records(bytes@) == records_view(records@) + spec_parse_records(
                bytes@.skip(pos as int),
            ),
            spec_parsed_len(bytes@) == pos + spec_parsed_len(bytes@.skip(pos as int)),
        ensures
            pos <= bytes@.len(),
            spec_parse_records(bytes@) == records_view(records@) + spec_parse_records(
                bytes@.skip(pos as int),
            ),
            spec_parsed_len(bytes@) == pos + spec_parsed_len(bytes@.skip(pos as int)),
            !has_complete_record(bytes@.skip(pos as int)),
        decreases bytes@.len() - pos,
    {
        let ghost rest = bytes@.skip(pos as int);
        let remaining = bytes.len() - pos;
        if remaining < PATH_PREFIX_LENGTH {
            assert(!has_complete_record(rest));
            break;
        }
        let prefix = vstd::slice::slice_subrange(bytes, pos, pos + PATH_PREFIX_LENGTH);
        let path_len32 = u32_from_le_bytes(prefix);
        proof {
            assert(prefix@ =~= rest.subrange(0, PATH_PREFIX_LENGTH as int));
        }
        if ((remaining - PATH_PREFIX_LENGTH) as u64) < path_len32 as u64
            + RECORD_TAIL_LENGTH as u64 {
            assert(!has_complete_record(rest));
            break;
        }
        let path_len = path_len32 as usize;
        let body = pos + PATH_PREFIX_LENGTH;
        let tail = body + path_len;
        let path = vstd::slice::slice_to_vec(vstd::slice::slice_subrange(bytes, body, tail));
        let volume_id = u64_from_le_bytes(vstd::slice::slice_subrange(bytes, tail, tail + 8));
        let offset = u64_from_le_bytes(vstd::slice::slice_subrange(bytes, tail + 8, tail + 16));
        let length = u64_from_le_bytes(vstd::slice::slice_subrange(bytes, tail + 16, tail + 24));
        let record = IndexRecord { path, volume_id, offset, length };
        proof {
            let ghost t = PATH_PREFIX_LENGTH + path_len32 as int;
            assert(rest.subrange(PATH_PREFIX_LENGTH as int, t) =~= bytes@.subrange(
                body as int,
                tail as int,
            ));
            assert(rest.subrange(t, t + 8) =~= bytes@.subrange(tail as int, tail + 8));
            assert(rest.subrange(t + 8, t + 16) =~= bytes@.subrange(tail + 8, tail + 16));
            assert(rest.subrange(t + 16, t + 24) =~= bytes@.subrange(tail + 16, tail + 24));
            assert(has_complete_record(rest));
            assert(spec_first_record(rest) == record@);
            assert(rest.skip(spec_first_record_len(rest)) =~= bytes@.skip(
                tail + RECORD_TAIL_LENGTH,
            ));
            assert(records_view(records@.push(record)) =~= records_view(records@) + seq![
                record@,
            ]);
        }
        records.push(record);
        pos = tail + RECORD_TAIL_LENGTH;
        proof {
            assert(records_view(records@) + spec_parse_records(bytes@.skip(pos as int))
                =~= spec_parse_records(bytes@));
        }
    }
    proof {
        assert(records_view(records@) + spec_parse_records(bytes@.skip(pos as int))
            =~= records_view(records@));
    }
    (records, pos)
}

/// Encoding distributes over putting one record in front.
pub proof fn lemma_encode_records_prepend(record: IndexRecordView, records: Seq<IndexRecordView>)
    ensures
        spec_encode_records(seq![record] + records) == spec_encode_record(record)
            + spec_encode_records(records),
    decreases records.len(),
{
    if records.len() == 0 {
        assert(seq![record] + records =~= seq![record]);
        assert(seq![record].drop_last() =~= Seq::<IndexRecordView>::empty());
        assert(spec_encode_records(Seq::<IndexRecordView>::empty()) =~= Seq::<u8>::empty());
        assert(spec_encode_records(seq![record]) =~= spec_encode_record(record));
        assert(spec_encode_record(record) + spec_encode_records(records) =~= spec_encode_record(
            record,
        ));
    } else {
        assert((seq![record] + records).drop_last() =~= seq![record] + records.drop_last());
        assert((seq![record] + records).last() == records.last());
        lemma_encode_records_prepend(record, records.drop_last());
        assert(spec_encode_records(seq![record] + records) =~= spec_encode_record(record)
            + spec_encode_records(records));
    }
}

/// A parsed record re-encodes to exactly the bytes it was parsed from:
/// the whole log replay consumes is the encoding of the records it
/// yields, every one of them well formed.
pub proof fn lemma_encode_parsed(bytes: Seq<u8>)
    ensures
        0 <= spec_parsed_len(bytes) <= bytes.len(),
        spec_encode_records(spec_parse_records(bytes)) == bytes.take(spec_parsed_len(bytes)),
        forall|i: int|
            0 <= i < spec_parse_records(bytes).len() ==> (#[trigger] spec_parse_records(
                bytes,
            )[i]).wf(),
    decreases bytes.len(),
{
    lemma_auto_spec_u32_to_from_le_bytes();
    lemma_auto_spec_u64_to_from_le_bytes();
    if has_complete_record(bytes) {
        let first = spec_first_record(bytes);
        let first_len = spec_first_record_len(bytes);
        let path_len = spec_u32_from_le_bytes(bytes.subrange(0, PATH_PREFIX_LENGTH as int))
            as int;
        let t = PATH_PREFIX_LENGTH + path_len;
        assert(first.path.len() == path_len);
        assert(first.wf());
        assert(spec_u32_to_le_bytes(first.path.len() as u32) =~= bytes.subrange(
            0,
            PATH_PREFIX_LENGTH as int,
        ));
        assert(spec_u64_to_le_bytes(first.volume_id) =~= bytes.subrange(t, t + 8));
        assert(spec_u64_to_le_bytes(first.offset) =~= bytes.subrange(t + 8, t + 16));
        assert(spec_u64_to_le_bytes(first.length) =~= bytes.subrange(t + 16, t + 24));
        assert(spec_encode_record(first) =~= bytes.take(first_len));
        let rest = bytes.skip(first_len);
        lemma_encode_parsed(rest);
        assert(spec_parse_records(bytes) =~= seq![first] + spec_parse_records(rest));
        lemma_encode_records_prepend(first, spec_parse_records(rest));
        assert(bytes.take(first_len) + rest.take(spec_parsed_len(rest)) =~= bytes.take(
            first_len + spec_parsed_len(rest),
        ));
        assert(spec_encode_records(spec_parse_records(bytes)) == bytes.take(
            spec_parsed_len(bytes),
        ));
        assert(forall|i: int|
            0 <= i < spec_parse_records(bytes).len() ==> (#[trigger] spec_parse_records(
                bytes,
            )[i]).wf()) by {
            assert(forall|i: int|
                1 <= i < spec_parse_records(bytes).len() ==> spec_parse_records(bytes)[i]
                    == spec_parse_records(rest)[i - 1]);
        }
    } else {
        assert(spec_parse_records(bytes) =~= Seq::<IndexRecordView>::empty());
        assert(spec_encode_records(spec_parse_records(bytes)) =~= bytes.take(0));
    }
}

/// Replaying a fully consumed log plus one appended record yields the same
/// records plus that one, and consumes everything: an append never
/// disturbs the records already on disk.
pub proof fn lemma_parse_append(log: Seq<u8>, record: IndexRecordView)
    requires
        spec_parsed_len(log) == log.len(),
        record.wf(),
    ensures
        spec_parse_records(log + spec_encode_record(record)) == spec_parse_records(log).push(
            record,
        ),
        spec_parsed_len(log + spec_encode_record(record)) == log.len()
            + spec_encode_record(record).len(),
    decreases log.len(),
{
    lemma_auto_spec_u32_to_from_le_bytes();
    lemma_auto_spec_u64_to_from_le_bytes();
    let encoded = spec_encode_record(record);
    let whole = log + encoded;
    if log.len() == 0 {
        assert(whole =~= encoded);
        let path_len = record.path.len() as int;
        let t = PATH_PREFIX_LENGTH + path_len;
        assert(spec_u32_to_le_bytes(record.path.len() as u32).len() == 4);
        assert(encoded.len() == t + RECORD_TAIL_LENGTH);
        assert(encoded.subrange(0, PATH_PREFIX_LENGTH as int) =~= spec_u32_to_le_bytes(
            record.path.len() as u32,
        ));
        assert(spec_first_record_len(encoded) == t + RECORD_TAIL_LENGTH);
        assert(has_complete_record(encoded));
        assert(encoded.subrange(PATH_PREFIX_LENGTH as int, t) =~= record.path);
        assert(encoded.subrange(t, t + 8) =~= spec_u64_to_le_bytes(record.volume_id));
        assert(encoded.subrange(t + 8, t + 16) =~= spec_u64_to_le_bytes(record.offset));
        assert(encoded.subrange(t + 16, t + 24) =~= spec_u64_to_le_bytes(record.length));
        assert(spec_first_record(encoded) == record);
        assert(encoded.skip(spec_first_record_len(encoded)) =~= Seq::<u8>::empty());
        assert(!has_complete_record(Seq::<u8>::empty()));
        assert(spec_parse_records(Seq::<u8>::empty()) =~= Seq::<IndexRecordView>::empty());
        assert(spec_parse_records(whole) =~= spec_parse_records(log).push(record));
        assert(spec_parsed_len(Seq::<u8>::empty()) == 0);
        assert(spec_parsed_len(whole) == encoded.len());
    } else {
        assert(has_complete_record(log));
        let first_len = spec_first_record_len(log);
        assert(whole.subrange(0, PATH_PREFIX_LENGTH as int) =~= log.subrange(
            0,
            PATH_PREFIX_LENGTH as int,
        ));
        assert(spec_first_record_len(whole) == first_len);
        assert(has_complete_record(whole));
        let path_len = spec_u32_from_le_bytes(log.subrange(0, PATH_PREFIX_LENGTH as int)) as int;
        let t = PATH_PREFIX_LENGTH + path_len;
        assert(whole.subrange(PATH_PREFIX_LENGTH as int, t) =~= log.subrange(
            PATH_PREFIX_LENGTH as int,
            t,
        ));
        assert(whole.subrange(t, t + 8) =~= log.subrange(t, t + 8));
        assert(whole.subrange(t + 8, t + 16) =~= log.subrange(t + 8, t + 16));
        assert(whole.subrange(t + 16, t + 24) =~= log.subrange(t + 16, t + 24));
        assert(spec_first_record(whole) == spec_first_record(log));
        assert(whole.skip(first_len) =~= log.skip(first_len) + encoded);
        lemma_parse_append(log.skip(first_len), record);
        assert(spec_parse_records(whole) =~= spec_parse_records(log).push(record));
        assert(spec_parsed_len(whole) == first_len + spec_parsed_len(whole.skip(first_len)));
        assert(log.skip(first_len).len() == log.len() - first_len);
        assert(spec_parsed_len(whole) == log.len() + encoded.len());
    }
}

/// Replaying a log that is exactly the encoding of some records recovers
/// those records, all of them, with nothing left over.
pub proof fn lemma_parse_encoded(records: Seq<IndexRecordView>)
    requires
        forall|i: int| 0 <= i < records.len() ==> (#[trigger] records[i]).wf(),
    ensures
        spec_parse_records(spec_encode_records(records)) == records,
        spec_parsed_len(spec_encode_records(records)) == spec_encode_records(records).len(),
    decreases records.len(),
{
    if records.len() == 0 {
        assert(!has_complete_record(Seq::<u8>::empty()));
        assert(spec_parse_records(spec_encode_records(records)) =~= records);
    } else {
        assert(forall|i: int|
            0 <= i < records.drop_last().len() ==> (#[trigger] records.drop_last()[i]).wf());
        lemma_parse_encoded(records.drop_last());
        lemma_parse_append(spec_encode_records(records.drop_last()), records.last());
        assert(records.drop_last().push(records.last()) =~= records);
        assert(spec_parse_records(spec_encode_records(records)) =~= records);
    }
}

} // verus!
