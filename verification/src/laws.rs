//! The engine's guarantees, stated and proved over the volume model.
//!
//! Each law here is a proof about the specification functions that the
//! engine's operations are verified against, so it holds of every call
//! sequence a caller can make.

use crate::errors::VolumeError;
use crate::index::{lemma_parse_encoded, spec_encode_record, spec_encode_records,
    spec_parse_records, IndexRecordView};
use crate::needle::{lemma_chunk_parts_concat, lemma_concat_parts_singleton, NeedleView,
    CHUNK_SIZE};
use crate::codec::{lemma_needle_round_trip, spec_encode_needle, NEEDLE_HEADER_LENGTH};
use crate::paths::{spec_all_digits, spec_decimal_value, spec_extension, spec_file_stem,
    spec_index_extension};
use crate::volume::{spec_get, spec_lookup, spec_open, spec_read, spec_write, VolumeState};
use vstd::prelude::*;

verus! {

/// Writing preserves the volume's consistency: after any `write_needle`
/// outcome on a consistent volume, the volume is still consistent.
pub proof fn lemma_write_preserves_wf(s: VolumeState, key: Seq<u8>, needle: NeedleView)
    requires
        s.wf(),
        key.len() <= u32::MAX,
    ensures
        spec_write(s, key, needle).0.wf(),
{
    let (s2, r) = spec_write(s, key, needle);
    if r is Ok {
        let record = IndexRecordView {
            path: key,
            volume_id: s.id,
            offset: s.current_length,
            length: needle.total_length() as u64,
        };
        assert(s.records.push(record).drop_last() =~= s.records);
        assert(s2.records =~= s.records.push(record));
        lemma_needle_round_trip(needle.body_bytes());
        assert(s2.data.len() == s2.current_length);
        assert(spec_encode_records(s.records.push(record)) == spec_encode_records(s.records)
            + spec_encode_record(record));
        assert(s2.index_log =~= spec_encode_records(s2.records));
        assert(forall|i: int|
            0 <= i < s2.records.len() ==> (#[trigger] s2.records[i]).wf()) by {
            assert(forall|i: int| 0 <= i < s.records.len() ==> s2.records[i] == s.records[i]);
        }
    }
}

/// Round-trip: a needle whose body delivers its announced length and
/// which fits the remaining capacity is written successfully, and reading
/// its key back immediately afterwards yields exactly the body that was
/// written.
pub proof fn lemma_write_then_get(s: VolumeState, key: Seq<u8>, needle: NeedleView)
    requires
        s.wf(),
        needle.consistent(),
        s.writable(),
        s.current_length + needle.total_length() <= s.max_length,
    ensures
        spec_write(s, key, needle).1 is Ok,
        spec_get(spec_write(s, key, needle).0, key) is Ok,
        spec_get(spec_write(s, key, needle).0, key)->Ok_0.body_bytes() == needle.body_bytes(),
{
    let (s2, r) = spec_write(s, key, needle);
    let body = needle.body_bytes();
    let total = needle.total_length();
    let record = IndexRecordView {
        path: key,
        volume_id: s.id,
        offset: s.current_length,
        length: total as u64,
    };
    assert(s2.records == s.records.push(record));
    assert(s2.records.last() == record);
    assert(spec_lookup(s2.records, key) == Some(record.raw()));
    let entry = record.raw();
    let cur = s.current_length as int;
    lemma_needle_round_trip(body);
    assert(s2.data.subrange(cur, cur + NEEDLE_HEADER_LENGTH) =~= spec_encode_needle(
        body,
    ).subrange(0, NEEDLE_HEADER_LENGTH as int));
    let declared = needle.body_length;
    assert(s2.data.subrange(cur + NEEDLE_HEADER_LENGTH, cur + NEEDLE_HEADER_LENGTH + declared)
        =~= spec_encode_needle(body).subrange(
        NEEDLE_HEADER_LENGTH as int,
        spec_encode_needle(body).len() as int,
    ));
    let read = spec_read(s2, entry);
    assert(read is Ok);
    let view = read->Ok_0;
    if entry.length <= CHUNK_SIZE {
        lemma_concat_parts_singleton(body);
        assert(view.body_bytes() == body);
    } else {
        lemma_chunk_parts_concat(body);
        assert(view.body_bytes() == body);
    }
}

/// Overflow safety: a needle whose total length exceeds the available
/// capacity is rejected with `Overflow`, and the volume — current length,
/// data, log and records — is left exactly as it was.
pub proof fn lemma_overflow_rejected(s: VolumeState, key: Seq<u8>, needle: NeedleView)
    requires
        needle.total_length() > s.available(),
    ensures
        spec_write(s, key, needle).0 == s,
        spec_write(s, key, needle).1 == Err::<(), VolumeError>(
            VolumeError::Overflow {
                id: s.id,
                max_length: s.max_length,
                current_length: s.current_length,
                needle_length: needle.total_length() as u64,
            },
        ),
{
}

/// Corruption detection on open: when the index replays to at least one
/// record, the volume opens successfully exactly when the data file's
/// size equals the end of the last replayed record; any other size — a
/// truncated or padded data file — is reported as `DataCorruption`.
pub proof fn lemma_open_checks_size(
    path: Seq<u8>,
    path_chars: Seq<char>,
    index_bytes: Seq<u8>,
    data: Seq<u8>,
    max_length: u64,
)
    requires
        spec_extension(path) == Some(spec_index_extension()),
        spec_all_digits(spec_file_stem(path)),
        spec_decimal_value(spec_file_stem(path)) <= u64::MAX,
        spec_parse_records(index_bytes).len() > 0,
    ensures
        ({
            let last = spec_parse_records(index_bytes).last();
            let outcome = spec_open(path, path_chars, index_bytes, data, max_length);
            &&& data.len() == last.offset + last.length <==> outcome is Ok
            &&& data.len() != last.offset + last.length ==> outcome == Err::<
                VolumeState,
                VolumeError,
            >(
                VolumeError::DataCorruption {
                    id: spec_decimal_value(spec_file_stem(path)) as u64,
                    current_length: data.len() as u64,
                    offset: last.offset,
                    length: last.length,
                },
            )
        }),
{
}

/// Reopening is faithful: a consistent volume whose data ends exactly at
/// its last record — as it does after every successful write — opens
/// again from its two files with the same records, data and current
/// length, so every key reads back exactly as before the reopen.
pub proof fn lemma_reopen_round_trip(s: VolumeState, path: Seq<u8>, path_chars: Seq<char>)
    requires
        s.wf(),
        s.records.len() > 0,
        s.records.last().raw().end() == s.current_length,
        spec_extension(path) == Some(spec_index_extension()),
        spec_all_digits(spec_file_stem(path)),
        spec_decimal_value(spec_file_stem(path)) == s.id,
    ensures
        ({
            let outcome = spec_open(path, path_chars, s.index_log, s.data, s.max_length);
            &&& outcome is Ok
            &&& outcome->Ok_0.records == s.records
            &&& outcome->Ok_0.data == s.data
            &&& outcome->Ok_0.current_length == s.current_length
            &&& forall|key: Seq<u8>|
                #[trigger] spec_get(outcome->Ok_0, key) == spec_get(s, key)
        }),
{
    lemma_parse_encoded(s.records);
    let outcome = spec_open(path, path_chars, s.index_log, s.data, s.max_length);
    assert(spec_parse_records(s.index_log) == s.records);
    assert(s.index_log.take(crate::index::spec_parsed_len(s.index_log)) =~= s.index_log);
    let s2 = outcome->Ok_0;
    assert forall|key: Seq<u8>| #[trigger] spec_get(s2, key) == spec_get(s, key) by {
        assert(spec_lookup(s2.records, key) == spec_lookup(s.records, key));
        match spec_lookup(s.records, key) {
            None => {},
            Some(entry) => {
                assert(spec_read(s2, entry) == spec_read(s, entry));
            },
        }
    }
}

/// Overwrite semantics: writing the same key twice leaves two physical
/// records in the index log — replaying it shows both — while a read of
/// the key yields the second body only.
pub proof fn lemma_overwrite(s: VolumeState, key: Seq<u8>, first: NeedleView, second: NeedleView)
    requires
        s.wf(),
        key.len() <= u32::MAX,
        first.consistent(),
        second.consistent(),
        s.writable(),
        s.current_length + first.total_length() + second.total_length() <= s.max_length,
    ensures
        ({
            let s1 = spec_write(s, key, first).0;
            let s2 = spec_write(s1, key, second).0;
            &&& spec_write(s, key, first).1 is Ok
            &&& spec_write(s1, key, second).1 is Ok
            &&& spec_get(s2, key) is Ok
            &&& spec_get(s2, key)->Ok_0.body_bytes() == second.body_bytes()
            &&& s2.records.len() == s.records.len() + 2
            &&& s2.records[s2.records.len() - 2].path == key
            &&& s2.records[s2.records.len() - 1].path == key
            &&& spec_parse_records(s2.index_log) == s2.records
        }),
{
    let s1 = spec_write(s, key, first).0;
    lemma_write_preserves_wf(s, key, first);
    lemma_write_then_get(s, key, first);
    assert(s1.writable());
    lemma_write_preserves_wf(s1, key, second);
    lemma_write_then_get(s1, key, second);
    let s2 = spec_write(s1, key, second).0;
    assert(s2.wf());
    lemma_parse_encoded(s2.records);
}

/// Chunked read fidelity: whenever a read succeeds, concatenating the
/// buffers it yields — one buffer for a small needle, ordered chunks of
/// at most `CHUNK_SIZE` bytes for a large one — reproduces the stored
/// body exactly, with no gaps and no duplicates.
pub proof fn lemma_read_concat(s: VolumeState, key: Seq<u8>)
    requires
        spec_get(s, key) is Ok,
    ensures
        ({
            let needle = spec_get(s, key)->Ok_0;
            let entry = spec_lookup(s.records, key)->Some_0;
            &&& needle.body_bytes() == s.data.subrange(
                entry.offset + NEEDLE_HEADER_LENGTH,
                entry.offset + NEEDLE_HEADER_LENGTH + needle.body_length,
            )
            &&& forall|i: int|
                0 <= i < needle.parts.len() ==> (#[trigger] needle.parts[i]).len() <= CHUNK_SIZE
                    || needle.parts.len() == 1
        }),
{
    let needle = spec_get(s, key)->Ok_0;
    let entry = spec_lookup(s.records, key)->Some_0;
    let body = s.data.subrange(
        entry.offset + NEEDLE_HEADER_LENGTH,
        entry.offset + NEEDLE_HEADER_LENGTH + needle.body_length,
    );
    if entry.length <= CHUNK_SIZE {
        lemma_concat_parts_singleton(body);
    } else {
        lemma_chunk_parts_concat(body);
    }
}

/// Unknown key: a key with no record in the volume reads back as
/// `NotFound`, never as data.
pub proof fn lemma_unknown_key(s: VolumeState, key: Seq<u8>)
    requires
        spec_lookup(s.records, key) is None,
    ensures
        spec_get(s, key) == Err::<NeedleView, VolumeError>(VolumeError::NotFound),
{
}

/// Bounds check: an index entry that points past the volume's current
/// length — however it got there — reads back as `DataCorruption`, never
/// as an out-of-range read.
pub proof fn lemma_entry_out_of_bounds(s: VolumeState, key: Seq<u8>)
    requires
        spec_lookup(s.records, key) is Some,
        spec_lookup(s.records, key)->Some_0.end() > s.current_length,
    ensures
        spec_get(s, key) == Err::<NeedleView, VolumeError>(
            VolumeError::DataCorruption {
                id: s.id,
                current_length: s.current_length,
                offset: spec_lookup(s.records, key)->Some_0.offset,
                length: spec_lookup(s.records, key)->Some_0.length,
            },
        ),
{
}

} // verus!
