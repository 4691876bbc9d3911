//! The volume engine: one capacity-bounded pair of files holding needles.
//!
//! A volume owns the byte contents of a data file (needle records, back to
//! back) and an index file (an append-only record log), plus the in-memory
//! lookup the log replays to. It enforces the capacity bound on writes and
//! the consistency checks on open and on every read.
//!
//! The engine never touches the file system: the caller reads the files in
//! before `open` and appends the bytes the engine produced after a
//! successful `write_needle`.

use crate::codec::{decode_header, encode_header, spec_decode_header, spec_encode_needle,
    spec_encode_header, NEEDLE_HEADER_LENGTH};
use crate::errors::VolumeError;
use crate::index::{records_view, replay_index_records, spec_encode_record, spec_encode_records,
    spec_parse_records, spec_parsed_len, encode_index_record, IndexRecord, IndexRecordView,
    RawIndex};
use crate::needle::{chunk_parts, chunk_vec, Needle, NeedleBody, NeedleHeader, NeedleView,
    CHUNK_SIZE};
use crate::paths::{bytes_eq, data_extension, file_name_bytes, index_extension, parse_decimal,
    rfind_byte, spec_all_digits, spec_data_extension, spec_decimal_value, spec_extension,
    spec_file_stem, spec_index_extension};
use vstd::prelude::*;
use vstd::string::StringSliceAdditionalSpecFns;

verus! {

/// The role a volume file plays, told apart by its extension.
#[derive(Clone, Copy, Debug, PartialEq, Eq, Structural)]
pub enum VolumeExtension {
    Index,
    Data,
    Unknown,
}

impl<'a> vstd::std_specs::convert::FromSpecImpl<&'a str> for VolumeExtension {
    open spec fn obeys_from_spec() -> bool {
        true
    }

    open spec fn from_spec(t: &'a str) -> VolumeExtension {
        if t.spec_bytes() == spec_index_extension() {
            VolumeExtension::Index
        } else if t.spec_bytes() == spec_data_extension() {
            VolumeExtension::Data
        } else {
            VolumeExtension::Unknown
        }
    }
}

impl<'a> From<&'a str> for VolumeExtension {
    /// Classify an extension string as one of the volume file roles.
    fn from(t: &'a str) -> (r: VolumeExtension) {
        if bytes_eq(t.as_bytes(), index_extension().as_slice()) {
            VolumeExtension::Index
        } else if bytes_eq(t.as_bytes(), data_extension().as_slice()) {
            VolumeExtension::Data
        } else {
            VolumeExtension::Unknown
        }
    }
}

/// One volume: its identity, capacity, file contents and replayed index.
#[derive(Debug)]
pub struct Volume {
    /// The numeric id the volume's file names carry.
    pub id: u64,
    /// The path the volume was created or opened under.
    pub volume_path: String,
    /// The byte contents of the data file.
    pub data: Vec<u8>,
    /// The logical end of the data file: the offset the next needle
    /// record is appended at.
    pub current_length: u64,
    /// The fixed capacity set at creation; never changes.
    pub max_length: u64,
    /// The byte contents of the index file: the record log.
    pub index_log: Vec<u8>,
    /// The replayed records, in log order; for lookups, later entries for
    /// the same path supersede earlier ones.
    pub indexes: Vec<IndexRecord>,
}

/// The mathematical state of a volume.
pub struct VolumeState {
    pub id: u64,
    pub volume_path: Seq<char>,
    pub data: Seq<u8>,
    pub current_length: u64,
    pub max_length: u64,
    pub index_log: Seq<u8>,
    pub records: Seq<IndexRecordView>,
}

impl View for Volume {
    type V = VolumeState;

    open spec fn view(&self) -> VolumeState {
        VolumeState {
            id: self.id,
            volume_path: self.volume_path@,
            data: self.data@,
            current_length: self.current_length,
            max_length: self.max_length,
            index_log: self.index_log@,
            records: records_view(self.indexes@),
        }
    }
}

/// The latest entry for `key`: the raw entry of the last record whose
/// path is `key`, since later writes supersede earlier ones.
pub open spec fn spec_lookup(records: Seq<IndexRecordView>, key: Seq<u8>) -> Option<RawIndex>
    decreases records.len(),
{
    if records.len() == 0 {
        None
    } else if records.last().path == key {
        Some(records.last().raw())
    } else {
        spec_lookup(records.drop_last(), key)
    }
}

impl VolumeState {
    /// The data bytes end exactly at the logical length, so every read
    /// the engine validates stays inside them.
    pub open spec fn data_consistent(self) -> bool {
        self.data.len() == self.current_length
    }

    /// The index log is exactly the encoding of the replayed records.
    pub open spec fn log_consistent(self) -> bool {
        &&& self.index_log == spec_encode_records(self.records)
        &&& forall|i: int| 0 <= i < self.records.len() ==> (#[trigger] self.records[i]).wf()
    }

    /// A volume the engine's operations keep consistent.
    pub open spec fn wf(self) -> bool {
        self.data_consistent() && self.log_consistent()
    }

    /// A volume accepts writes only while it is below its capacity; once
    /// full it is permanently read-only.
    pub open spec fn writable(self) -> bool {
        self.current_length < self.max_length
    }

    /// How many more bytes the volume accepts.
    pub open spec fn available(self) -> int {
        if self.max_length > self.current_length {
            self.max_length - self.current_length
        } else {
            0
        }
    }

}

/// What `write_needle` does to a volume: the state after the call and the
/// result handed back.
///
/// A needle that does not fit is rejected whole with `Overflow`; a body
/// that delivers other than its announced length is rejected whole with
/// `WriteLengthMismatch`; in both cases the volume is unchanged. On
/// success the framed needle is appended to the data bytes, one record to
/// the index log and to the replayed records, and the current length
/// advances by exactly the needle's total length.
pub open spec fn spec_write(s: VolumeState, key: Seq<u8>, needle: NeedleView) -> (VolumeState,
    Result<(), VolumeError>) {
    let total = needle.total_length();
    if !(s.writable() && s.current_length + total <= s.max_length) {
        (
            s,
            Err(VolumeError::Overflow {
                id: s.id,
                max_length: s.max_length,
                current_length: s.current_length,
                needle_length: total as u64,
            }),
        )
    } else if needle.body_bytes().len() != needle.body_length {
        (
            s,
            Err(VolumeError::WriteLengthMismatch {
                id: s.id,
                expected: total as u64,
                received: (NEEDLE_HEADER_LENGTH + needle.body_bytes().len()) as u64,
            }),
        )
    } else {
        let record = IndexRecordView {
            path: key,
            volume_id: s.id,
            offset: s.current_length,
            length: total as u64,
        };
        (
            VolumeState {
                data: s.data + spec_encode_needle(needle.body_bytes()),
                current_length: (s.current_length + total) as u64,
                index_log: s.index_log + spec_encode_record(record),
                records: s.records.push(record),
                ..s
            },
            Ok(()),
        )
    }
}

/// What reading the needle behind one index entry yields: the corruption
/// error if the entry, its header, or the body the header announces reach
/// past the volume's current length; otherwise the announced body, as one
/// buffer for a small record and as chunks for a large one.
pub open spec fn spec_read(s: VolumeState, entry: RawIndex) -> Result<NeedleView, VolumeError> {
    let corrupt = VolumeError::DataCorruption {
        id: s.id,
        current_length: s.current_length,
        offset: entry.offset,
        length: entry.length,
    };
    if entry.offset + entry.length > s.current_length {
        Err(corrupt)
    } else if entry.offset + NEEDLE_HEADER_LENGTH > s.current_length {
        Err(corrupt)
    } else {
        let declared = spec_decode_header(
            s.data.subrange(entry.offset as int, entry.offset + NEEDLE_HEADER_LENGTH),
        );
        if entry.offset + NEEDLE_HEADER_LENGTH + declared > s.current_length {
            Err(corrupt)
        } else {
            let body = s.data.subrange(
                entry.offset + NEEDLE_HEADER_LENGTH,
                entry.offset + NEEDLE_HEADER_LENGTH + declared,
            );
            Ok(
                NeedleView {
                    body_length: declared,
                    parts: if entry.length <= CHUNK_SIZE { seq![body] } else {
                        chunk_parts(body)
                    },
                },
            )
        }
    }
}

/// What `get` yields: `NotFound` for a key without an entry, otherwise
/// whatever reading the latest entry for the key yields.
pub open spec fn spec_get(s: VolumeState, key: Seq<u8>) -> Result<NeedleView, VolumeError> {
    match spec_lookup(s.records, key) {
        None => Err(VolumeError::NotFound),
        Some(entry) => spec_read(s, entry),
    }
}

/// What `open` yields for given file contents.
///
/// The path must name an index file and its stem must parse as a numeric
/// id. The records replayed from the index file become the lookup table;
/// the data file's size becomes the current length, and it must equal the
/// end of the last replayed record, else the volume is corrupt.
pub open spec fn spec_open(
    path: Seq<u8>,
    path_chars: Seq<char>,
    index_bytes: Seq<u8>,
    data: Seq<u8>,
    max_length: u64,
) -> Result<VolumeState, VolumeError> {
    if spec_extension(path) != Some(spec_index_extension()) {
        Err(VolumeError::PathParse)
    } else if !(spec_all_digits(spec_file_stem(path)) && spec_decimal_value(spec_file_stem(path))
        <= u64::MAX) {
        Err(VolumeError::NameParse)
    } else {
        let id = spec_decimal_value(spec_file_stem(path)) as u64;
        let records = spec_parse_records(index_bytes);
        let last = if records.len() == 0 {
            RawIndex { volume_id: 0, offset: 0, length: 0 }
        } else {
            records.last().raw()
        };
        if data.len() != last.offset + last.length {
            Err(
                VolumeError::DataCorruption {
                    id,
                    current_length: data.len() as u64,
                    offset: last.offset,
                    length: last.length,
                },
            )
        } else {
            Ok(
                VolumeState {
                    id,
                    volume_path: path_chars,
                    data,
                    current_length: data.len() as u64,
                    max_length,
                    index_log: index_bytes.take(spec_parsed_len(index_bytes)),
                    records,
                },
            )
        }
    }
}

/// A needle result, viewed mathematically.
pub open spec fn needle_result_view(r: Result<Needle, VolumeError>) -> Result<
    NeedleView,
    VolumeError,
> {
    match r {
        Ok(needle) => Ok(needle@),
        Err(e) => Err(e),
    }
}

/// The plain facts `describe` reports about a volume.
#[derive(Debug)]
pub struct VolumeInfo {
    pub id: u64,
    pub volume_path: String,
    pub current_length: u64,
    pub max_length: u64,
    pub index_records: u64,
}

impl Volume {
    /// Set up a brand-new, empty volume under `volume_path` with the given
    /// id and capacity. The caller reports whether either volume file
    /// already exists on disk; creation is refused if one does.
    pub fn new(volume_path: String, id: u64, max_length: u64, data_exists: bool,
        index_exists: bool) -> (r: Result<Volume, VolumeError>)
        ensures
            match r {
                Ok(v) => !data_exists && !index_exists && v@ == (VolumeState {
                    id,
                    volume_path: volume_path@,
                    data: Seq::empty(),
                    current_length: 0,
                    max_length,
                    index_log: Seq::empty(),
                    records: Seq::empty(),
                }) && v@.wf(),
                Err(e) => (data_exists || index_exists) && e == (VolumeError::AlreadyExists {
                    id,
                }),
            },
    {
        if data_exists || index_exists {
            return Err(VolumeError::AlreadyExists { id });
        }
        let volume = Volume {
            id,
            volume_path,
            data: Vec::new(),
            current_length: 0,
            max_length,
            index_log: Vec::new(),
            indexes: Vec::new(),
        };
        proof {
            assert(records_view(volume.indexes@) =~= Seq::<IndexRecordView>::empty());
            assert(spec_encode_records(Seq::<IndexRecordView>::empty())
                =~= Seq::<u8>::empty());
        }
        Ok(volume)
    }

    /// Open a volume from the contents of its two files: `volume_path` is
    /// the index file's path, `index_bytes` that file's contents, and
    /// `data` the paired data file's contents. Replays every index record
    /// in order and checks that the data file ends exactly where the last
    /// record says it should; a trailing fragment of a torn index append
    /// is dropped from the kept log.
    pub fn open(volume_path: &str, index_bytes: Vec<u8>, data: Vec<u8>, max_length: u64) -> (r:
        Result<Volume, VolumeError>)
        ensures
            ({
                let outcome = spec_open(
                    volume_path.spec_bytes(),
                    volume_path@,
                    index_bytes@,
                    data@,
                    max_length,
                );
                match r {
                    Ok(v) => outcome == Ok::<VolumeState, VolumeError>(v@) && v@.wf()
                        && v@.max_length == max_length,
                    Err(e) => outcome == Err::<VolumeState, VolumeError>(e),
                }
            }),
    {
        let path_bytes = volume_path.as_bytes();
        let name = file_name_bytes(path_bytes);
        let name_len = name.len();
        let extension_start = match rfind_byte(name.as_slice(), '.' as u8) {
            Some(i) => i + 1,
            None => {
                return Err(VolumeError::PathParse);
            },
        };
        let extension = vstd::slice::slice_subrange(name.as_slice(), extension_start, name_len);
        if !bytes_eq(extension, index_extension().as_slice()) {
            return Err(VolumeError::PathParse);
        }
        let id = match Self::parse_volume_file_stem_name(volume_path) {
            Ok(id) => id,
            Err(e) => {
                return Err(e);
            },
        };
        let (indexes, consumed) = replay_index_records(index_bytes.as_slice());
        let last = if indexes.len() == 0 {
            RawIndex::default()
        } else {
            let record = &indexes[indexes.len() - 1];
            RawIndex { volume_id: record.volume_id, offset: record.offset, length: record.length }
        };
        proof {
            let records = spec_parse_records(index_bytes@);
            if records.len() > 0 {
                assert(records.last() == records_view(indexes@).last());
            }
        }
        let current_length = data.len() as u64;
        let corrupt = last.length > u64::MAX - last.offset || last.offset + last.length
            != current_length;
        if corrupt {
            return Err(
                VolumeError::DataCorruption {
                    id,
                    current_length,
                    offset: last.offset,
                    length: last.length,
                },
            );
        }
        let index_log = vstd::slice::slice_to_vec(
            vstd::slice::slice_subrange(index_bytes.as_slice(), 0, consumed),
        );
        proof {
            crate::index::lemma_encode_parsed(index_bytes@);
        }
        Ok(
            Volume {
                id,
                volume_path: volume_path.to_owned(),
                data,
                current_length,
                max_length,
                index_log,
                indexes,
            },
        )
    }

    /// Parse the numeric volume id out of a volume file path's stem:
    /// the file name up to its last dot.
    pub fn parse_volume_file_stem_name(volume_path: &str) -> (r: Result<u64, VolumeError>)
        ensures
            ({
                let stem = spec_file_stem(volume_path.spec_bytes());
                match r {
                    Ok(id) => spec_all_digits(stem) && spec_decimal_value(stem) <= u64::MAX
                        && id == spec_decimal_value(stem),
                    Err(e) => (!spec_all_digits(stem) || spec_decimal_value(stem) > u64::MAX)
                        && e == VolumeError::NameParse,
                }
            }),
    {
        let name = file_name_bytes(volume_path.as_bytes());
        let name_len = name.len();
        let stem_end = match rfind_byte(name.as_slice(), '.' as u8) {
            Some(i) => i,
            None => name_len,
        };
        let stem = vstd::slice::slice_subrange(name.as_slice(), 0, stem_end);
        assert(stem@ == spec_file_stem(volume_path.spec_bytes()));
        match parse_decimal(stem) {
            Some(id) => Ok(id),
            None => Err(VolumeError::NameParse),
        }
    }

    /// Whether the volume still accepts writes.
    pub fn writable(&self) -> (r: bool)
        ensures
            r == self@.writable(),
    {
        self.current_length < self.max_length
    }

    /// Whether the volume is full and therefore permanently read-only.
    pub fn readonly(&self) -> (r: bool)
        ensures
            r == !self@.writable(),
    {
        !self.writable()
    }

    /// How many more bytes the volume accepts.
    pub fn available_length(&self) -> (r: u64)
        ensures
            r == self@.available(),
    {
        if self.max_length > self.current_length {
            self.max_length - self.current_length
        } else {
            0
        }
    }

    /// The plain facts about this volume, for diagnostics and registry
    /// bookkeeping.
    pub fn describe(&self) -> (r: VolumeInfo)
        ensures
            r.id == self@.id,
            r.volume_path@ == self@.volume_path,
            r.current_length == self@.current_length,
            r.max_length == self@.max_length,
            r.index_records == self@.records.len(),
    {
        VolumeInfo {
            id: self.id,
            volume_path: self.volume_path.clone(),
            current_length: self.current_length,
            max_length: self.max_length,
            index_records: self.indexes.len() as u64,
        }
    }

    /// Whether a needle record of `length` bytes fits: the volume must
    /// still be writable and the record must not push the current length
    /// past the capacity.
    fn can_write(&self, length: u64) -> (r: bool)
        ensures
            r == (self@.writable() && self@.current_length + length <= self@.max_length),
    {
        if self.current_length >= self.max_length {
            return false;
        }
        self.max_length - self.current_length >= length
    }

    /// The latest index entry for `key`, scanning the replayed records
    /// from the newest back.
    fn find_index(&self, key: &[u8]) -> (r: Option<RawIndex>)
        ensures
            r == spec_lookup(records_view(self.indexes@), key@),
    {
        let ghost records = records_view(self.indexes@);
        let mut i: usize = self.indexes.len();
        proof {
            assert(records.take(i as int) =~= records);
        }
        while i > 0
            invariant
                0 <= i <= self.indexes@.len(),
                records == records_view(self.indexes@),
                spec_lookup(records, key@) == spec_lookup(records.take(i as int), key@),
            decreases i,
        {
            let record = &self.indexes[i - 1];
            proof {
                assert(records.take(i as int).last() == records[i - 1]);
                assert(records.take(i as int).drop_last() =~= records.take(i - 1));
            }
            if bytes_eq(record.path.as_slice(), key) {
                return Some(RawIndex::new(record.volume_id, record.offset, record.length));
            }
            i = i - 1;
        }
        proof {
            assert(records.take(0) =~= Seq::<IndexRecordView>::empty());
        }
        None
    }

    /// Append one needle under `path`.
    ///
    /// The needle is rejected whole — volume untouched — when it does not
    /// fit the remaining capacity (`Overflow`) or when its body delivers
    /// a different number of bytes than its header announced
    /// (`WriteLengthMismatch`). On success the framed needle goes into
    /// the data bytes at the old current length, one record goes onto the
    /// index log and the replayed records, and the current length
    /// advances by the needle's total length.
    pub fn write_needle(&mut self, path: &str, needle: Needle) -> (r: Result<(), VolumeError>)
        requires
            old(self)@.wf(),
            path.spec_bytes().len() <= u32::MAX,
        ensures
            final(self)@.wf(),
            (final(self)@, r) == spec_write(old(self)@, path.spec_bytes(), needle@),
    {
        let total = needle.total_length();
        if !self.can_write(total) {
            return Err(
                VolumeError::Overflow {
                    id: self.id,
                    max_length: self.max_length,
                    current_length: self.current_length,
                    needle_length: total,
                },
            );
        }
        let mut frame = encode_header(needle.header.body_length);
        needle.append_body_to(&mut frame);
        let received = frame.len();
        if received as u64 != total {
            return Err(
                VolumeError::WriteLengthMismatch {
                    id: self.id,
                    expected: total,
                    received: received as u64,
                },
            );
        }
        let offset = self.current_length;
        let ghost old_state = old(self)@;
        let ghost body = needle@.body_bytes();
        proof {
            assert(frame@ =~= spec_encode_header(needle@.body_length) + body);
            assert(spec_encode_needle(body) =~= frame@);
        }
        self.data.append(&mut frame);
        encode_index_record(&mut self.index_log, path.as_bytes(), self.id, offset, total);
        let record = IndexRecord {
            path: vstd::slice::slice_to_vec(path.as_bytes()),
            volume_id: self.id,
            offset,
            length: total,
        };
        self.indexes.push(record);
        self.current_length = self.current_length + total;
        proof {
            let ghost rec_view = IndexRecordView {
                path: path.spec_bytes(),
                volume_id: old_state.id,
                offset: old_state.current_length,
                length: total,
            };
            assert(records_view(self.indexes@) =~= old_state.records.push(rec_view));
            assert(old_state.records.push(rec_view).drop_last() =~= old_state.records);
            assert(spec_encode_records(old_state.records.push(rec_view))
                == spec_encode_records(old_state.records) + spec_encode_record(rec_view));
            assert(self@ == spec_write(old_state, path.spec_bytes(), needle@).0);
        }
        Ok(())
    }

    /// Look up `key` and read its needle: `NotFound` without an entry,
    /// the corruption error for an entry pointing outside the volume's
    /// current length, and otherwise the stored body.
    pub fn get(&self, path: &str) -> (r: Result<Needle, VolumeError>)
        requires
            self@.data_consistent(),
        ensures
            needle_result_view(r) == spec_get(self@, path.spec_bytes()),
    {
        match self.find_index(path.as_bytes()) {
            None => Err(VolumeError::NotFound),
            Some(entry) => self.read_needle(&entry),
        }
    }

    /// Decode the needle header that sits at `offset` in the data bytes.
    pub fn read_needle_header(data: &[u8], offset: usize) -> (r: NeedleHeader)
        requires
            offset + NEEDLE_HEADER_LENGTH <= data@.len(),
        ensures
            r.body_length == spec_decode_header(
                data@.subrange(offset as int, offset + NEEDLE_HEADER_LENGTH),
            ),
    {
        let data_len = data.len();
        proof {
            assert(offset + 4 <= data_len);
        }
        let header_bytes = vstd::slice::slice_subrange(data, offset, offset + 4);
        NeedleHeader { body_length: decode_header(header_bytes) }
    }

    /// Copy the `length` body bytes that follow a needle header at
    /// `offset` out of the data bytes.
    pub fn read_needle_body(data: &[u8], offset: usize, length: usize) -> (r: Vec<u8>)
        requires
            offset + NEEDLE_HEADER_LENGTH + length <= data@.len(),
        ensures
            r@ == data@.subrange(
                offset + NEEDLE_HEADER_LENGTH,
                offset + NEEDLE_HEADER_LENGTH + length,
            ),
    {
        let data_len = data.len();
        proof {
            assert(offset + 4 + length <= data_len);
        }
        vstd::slice::slice_to_vec(
            vstd::slice::slice_subrange(data, offset + 4, offset + 4 + length),
        )
    }

    /// Read the needle one index entry points at, validating the entry
    /// and its header against the volume's current length first. A body
    /// of a record over `CHUNK_SIZE` bytes comes back as ordered chunks,
    /// each at most `CHUNK_SIZE` bytes; a smaller one as a single buffer.
    pub fn read_needle(&self, entry: &RawIndex) -> (r: Result<Needle, VolumeError>)
        requires
            self@.data_consistent(),
        ensures
            needle_result_view(r) == spec_read(self@, *entry),
    {
        let corrupt = VolumeError::DataCorruption {
            id: self.id,
            current_length: self.current_length,
            offset: entry.offset,
            length: entry.length,
        };
        let data_len = self.data.len();
        if entry.offset > self.current_length || self.current_length - entry.offset
            < entry.length {
            return Err(corrupt);
        }
        if self.current_length - entry.offset < NEEDLE_HEADER_LENGTH {
            return Err(corrupt);
        }
        let offset = entry.offset as usize;
        proof {
            assert(offset == entry.offset as int);
        }
        let header = Self::read_needle_header(self.data.as_slice(), offset);
        let ghost declared = spec_decode_header(
            self@.data.subrange(entry.offset as int, entry.offset + NEEDLE_HEADER_LENGTH),
        );
        proof {
            assert(header.body_length == declared);
        }
        if (self.current_length - entry.offset - NEEDLE_HEADER_LENGTH) < header.body_length
            as u64 {
            return Err(corrupt);
        }
        let body = Self::read_needle_body(self.data.as_slice(), offset, header.body_length
            as usize);
        let ghost spec_body = self@.data.subrange(
            entry.offset + NEEDLE_HEADER_LENGTH,
            entry.offset + NEEDLE_HEADER_LENGTH + declared,
        );
        proof {
            assert(body@ == spec_body);
        }
        if entry.length <= CHUNK_SIZE as u64 {
            let needle = Needle { header, body: NeedleBody::SinglePart(body) };
            proof {
                assert(needle@.parts =~= seq![spec_body]);
            }
            Ok(needle)
        } else {
            let parts = chunk_vec(body);
            let needle = Needle { header, body: NeedleBody::MultiParts(parts) };
            proof {
                assert(needle@.parts =~= chunk_parts(spec_body));
            }
            Ok(needle)
        }
    }
}

} // verus!
