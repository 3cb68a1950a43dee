//! Keeping an index beside its source: the layout of the index file, the
//! metadata that ties it to the source, and the test that decides whether a
//! stored index may be used.
//!
//! The index file is `<source>.idx`. It holds, little-endian, the length of
//! the metadata as a `u64`, then the metadata, then the index payload. How
//! the two parts are encoded is the caller's business; this module frames
//! them, and rebuilds an index from decoded parts only after checking them.

use crate::csv::index::{RowIndex, RowIndexView};
use crate::error::{CsvError, Result};
use vstd::bytes::{
    lemma_auto_spec_u64_to_from_le_bytes, spec_u64_from_le_bytes, spec_u64_to_le_bytes,
    u64_from_le_bytes, u64_to_le_bytes,
};
use vstd::prelude::*;
use vstd::string::StringExecFns;

verus! {

/// The only index format there is.
pub const INDEX_VERSION: u32 = 1;

/// How far the source's modification time may lie from the recorded one, in
/// nanoseconds: file systems round their time stamps.
pub const MTIME_SLACK_NANOS: u128 = 1_000_000_000;

/// A point in time, counted from the Unix epoch.
#[derive(Debug, Clone, Copy)]
pub struct Timestamp {
    pub secs: u64,
    pub nanos: u32,
}

impl Timestamp {
    /// The point in time in nanoseconds.
    pub open spec fn as_nanos(self) -> int {
        self.secs as int * 1_000_000_000 + self.nanos as int
    }

    /// The distance between two points in time, in nanoseconds.
    pub open spec fn distance(self, other: Timestamp) -> int {
        if self.as_nanos() >= other.as_nanos() {
            self.as_nanos() - other.as_nanos()
        } else {
            other.as_nanos() - self.as_nanos()
        }
    }

    /// The point in time in nanoseconds.
    pub fn to_nanos(&self) -> (r: u128)
        ensures
            r == self.as_nanos(),
    {
        assert(self.secs as int * 1_000_000_000 <= 0xffff_ffff_ffff_ffff * 1_000_000_000)
            by (nonlinear_arith)
            requires
                self.secs <= 0xffff_ffff_ffff_ffff,
        ;
        (self.secs as u128) * 1_000_000_000 + (self.nanos as u128)
    }

    /// Whether the two points in time lie within [`MTIME_SLACK_NANOS`] of
    /// each other.
    pub fn is_close_to(&self, other: &Timestamp) -> (r: bool)
        ensures
            r == (self.distance(*other) <= MTIME_SLACK_NANOS),
    {
        let a = self.to_nanos();
        let b = other.to_nanos();
        if a >= b {
            a - b <= MTIME_SLACK_NANOS
        } else {
            b - a <= MTIME_SLACK_NANOS
        }
    }
}

/// What an index file records of the source that it was built from.
#[derive(Debug, Clone)]
pub struct IndexMetadata {
    /// The path of the source.
    pub csv_path: String,
    /// The size of the source in bytes.
    pub csv_size: u64,
    /// When the source was last modified.
    pub csv_mtime: Timestamp,
    /// The format of the index file.
    pub index_version: u32,
    /// When the index was built.
    pub build_time: Timestamp,
    /// The granularity of the index.
    pub granularity: usize,
}

impl IndexMetadata {
    /// The metadata of an index in the current format, built at `build_time`.
    pub fn new(
        csv_path: String,
        csv_size: u64,
        csv_mtime: Timestamp,
        granularity: usize,
        build_time: Timestamp,
    ) -> (r: Self)
        ensures
            r.csv_path == csv_path,
            r.csv_size == csv_size,
            r.csv_mtime == csv_mtime,
            r.index_version == INDEX_VERSION,
            r.build_time == build_time,
            r.granularity == granularity,
    {
        IndexMetadata {
            csv_path,
            csv_size,
            csv_mtime,
            index_version: INDEX_VERSION,
            build_time,
            granularity,
        }
    }
}

/// What the file system says of the source at the moment an index is to be
/// used.
#[derive(Debug, Clone)]
pub struct SourceStat {
    /// Whether the source exists.
    pub exists: bool,
    /// The canonical path of the source, where it could be resolved.
    pub canonical_path: Option<String>,
    /// The canonical form of the path recorded in the metadata, where it
    /// could be resolved.
    pub recorded_canonical_path: Option<String>,
    /// The size of the source in bytes, where it could be read.
    pub size: Option<u64>,
    /// When the source was last modified, where that could be read.
    pub mtime: Option<Timestamp>,
}

/// A stored index may be used: the source exists, it is the file that the
/// metadata names, it has the recorded size, its modification time lies
/// within a second of the recorded one, the format is the current one, and
/// the granularity is the one asked for.
pub open spec fn index_valid(
    source: SourceStat,
    metadata: IndexMetadata,
    granularity: usize,
) -> bool {
    &&& source.exists
    &&& source.canonical_path is Some
    &&& source.recorded_canonical_path is Some
    &&& source.canonical_path->Some_0@ == source.recorded_canonical_path->Some_0@
    &&& source.size == Some(metadata.csv_size)
    &&& source.mtime is Some
    &&& source.mtime->Some_0.distance(metadata.csv_mtime) <= MTIME_SLACK_NANOS
    &&& metadata.index_version == INDEX_VERSION
    &&& metadata.granularity == granularity
}

/// The content of an index file with these two parts.
pub open spec fn frame(metadata: Seq<u8>, payload: Seq<u8>) -> Seq<u8> {
    spec_u64_to_le_bytes(metadata.len() as u64) + metadata + payload
}

/// The length that the first eight bytes of an index file announce.
pub open spec fn announced_len(bytes: Seq<u8>) -> int {
    spec_u64_from_le_bytes(bytes.subrange(0, 8)) as int
}

/// The bytes can be taken apart: they hold a length, and at least as many
/// bytes behind it.
pub open spec fn is_framed(bytes: Seq<u8>) -> bool {
    bytes.len() >= 8 && announced_len(bytes) <= bytes.len() - 8
}

/// The metadata part of an index file.
pub open spec fn framed_metadata(bytes: Seq<u8>) -> Seq<u8> {
    bytes.subrange(8, 8 + announced_len(bytes))
}

/// The payload part of an index file.
pub open spec fn framed_payload(bytes: Seq<u8>) -> Seq<u8> {
    bytes.subrange(8 + announced_len(bytes), bytes.len() as int)
}

/// Round trip of the file layout: what was framed is taken apart into the
/// same two parts.
pub proof fn lemma_frame_round_trip(metadata: Seq<u8>, payload: Seq<u8>)
    requires
        metadata.len() <= u64::MAX,
    ensures
        is_framed(frame(metadata, payload)),
        framed_metadata(frame(metadata, payload)) == metadata,
        framed_payload(frame(metadata, payload)) == payload,
{
    lemma_auto_spec_u64_to_from_le_bytes();
    let head = spec_u64_to_le_bytes(metadata.len() as u64);
    let bytes = frame(metadata, payload);
    assert(bytes.subrange(0, 8) =~= head);
    assert(framed_metadata(bytes) =~= metadata);
    assert(framed_payload(bytes) =~= payload);
}

impl RowIndex {
    /// The path of the index file of a source: the path of the source with
    /// `.idx` behind it, whatever extension the source has.
    pub fn index_file_path(csv_path: &str) -> (r: String)
        ensures
            r@ == csv_path@ + ".idx"@,
    {
        let mut path = String::from_str(csv_path);
        path.append(".idx");
        path
    }

    /// Whether a stored index with this metadata may be used for the source
    /// as the file system shows it now, at the granularity asked for.
    pub fn is_index_valid(source: &SourceStat, metadata: &IndexMetadata, granularity: usize) -> (r:
        bool)
        ensures
            r == index_valid(*source, *metadata, granularity),
    {
        if !source.exists {
            return false;
        }
        let same_file = match (&source.canonical_path, &source.recorded_canonical_path) {
            (Some(found), Some(recorded)) => *found == *recorded,
            _ => false,
        };
        if !same_file {
            return false;
        }
        let same_size = match source.size {
            Some(size) => size == metadata.csv_size,
            None => false,
        };
        if !same_size {
            return false;
        }
        let same_time = match &source.mtime {
            Some(mtime) => mtime.is_close_to(&metadata.csv_mtime),
            None => false,
        };
        if !same_time {
            return false;
        }
        metadata.index_version == INDEX_VERSION && metadata.granularity == granularity
    }

    /// The content of the index file that holds these two encoded parts.
    pub fn encode_index_file(metadata: &[u8], payload: &[u8]) -> (r: Vec<u8>)
        ensures
            r@ == frame(metadata@, payload@),
    {
        let mut out = u64_to_le_bytes(metadata.len() as u64);
        out.extend_from_slice(metadata);
        out.extend_from_slice(payload);
        out
    }

    /// Takes the content of an index file apart into the encoded metadata
    /// and the encoded payload. A file that is too short for what it announces
    /// is refused.
    pub fn decode_index_file<'a>(bytes: &'a [u8]) -> (r: Result<(&'a [u8], &'a [u8])>)
        ensures
            is_framed(bytes@) ==> (r matches Ok((metadata, payload)) && metadata@
                == framed_metadata(bytes@) && payload@ == framed_payload(bytes@)),
            !is_framed(bytes@) ==> r matches Err(CsvError::IndexFile(_)),
    {
        let n: usize = bytes.len();
        if n < 8 {
            return Err(CsvError::IndexFile(String::from_str("index file is truncated")));
        }
        let head = vstd::slice::slice_subrange(bytes, 0, 8);
        let announced: u64 = u64_from_le_bytes(head);
        if announced > (n - 8) as u64 {
            return Err(
                CsvError::IndexFile(String::from_str("index file is shorter than its metadata")),
            );
        }
        let split: usize = 8 + announced as usize;
        let metadata = vstd::slice::slice_subrange(bytes, 8, split);
        let payload = vstd::slice::slice_subrange(bytes, split, n);
        Ok((metadata, payload))
    }

    /// Rebuilds an index from its decoded parts, for a source whose data
    /// region starts at `data_start`. Parts that break the invariant of an
    /// index are refused.
    pub fn from_parts(
        offsets: Vec<u64>,
        row_numbers: Vec<usize>,
        granularity: usize,
        total_rows: usize,
        is_complete: bool,
        indexed_bytes: u64,
        data_start: u64,
    ) -> (r: Result<RowIndex>)
        ensures
            ({
                let v = RowIndexView {
                    offsets: offsets@,
                    row_numbers: row_numbers@,
                    granularity,
                    total_rows,
                    is_complete,
                    indexed_bytes,
                    data_start,
                };
                &&& v.wf() ==> (r matches Ok(idx) && idx@ == v)
                &&& !v.wf() ==> r matches Err(CsvError::IndexFile(_))
            }),
    {
        let n: usize = offsets.len();
        let mut sound = granularity > 0 && row_numbers.len() == n && data_start <= indexed_bytes
            && total_rows as u64 <= indexed_bytes - data_start;
        let mut i: usize = 0;
        while sound && i < n
            invariant
                n == offsets@.len(),
                sound ==> granularity > 0 && row_numbers@.len() == n && data_start
                    <= indexed_bytes && total_rows <= indexed_bytes - data_start,
                0 <= i <= n,
                sound ==> forall|k: int|
                    #![trigger row_numbers@[k]]
                    0 <= k < i ==> 0 < row_numbers@[k] <= total_rows && row_numbers@[k] as int
                        % granularity as int == 0,
                sound ==> forall|k: int|
                    #![trigger offsets@[k]]
                    0 <= k < i ==> data_start <= offsets@[k] < indexed_bytes,
                sound ==> forall|k: int|
                    0 < k < i ==> row_numbers@[k - 1] < #[trigger] row_numbers@[k],
                sound ==> forall|k: int| 0 < k < i ==> offsets@[k - 1] < #[trigger] offsets@[k],
                !sound ==> !(RowIndexView {
                    offsets: offsets@,
                    row_numbers: row_numbers@,
                    granularity,
                    total_rows,
                    is_complete,
                    indexed_bytes,
                    data_start,
                }).wf(),
            decreases n - i + if sound { 1int } else { 0int },
        {
            let row = row_numbers[i];
            let off = offsets[i];
            if row == 0 || row > total_rows || row % granularity != 0 || off < data_start || off
                >= indexed_bytes {
                sound = false;
            } else if i > 0 && (row_numbers[i - 1] >= row || offsets[i - 1] >= off) {
                sound = false;
            } else {
                i = i + 1;
            }
        }
        if !sound {
            return Err(CsvError::IndexFile(String::from_str("index payload is inconsistent")));
        }
        proof {
            assert forall|a: int, b: int| 0 <= a < b < n implies row_numbers@[a]
                < row_numbers@[b] && offsets@[a] < offsets@[b] by {
                lemma_adjacent_to_sorted(row_numbers@, offsets@, a, b);
            }
        }
        Ok(RowIndex::assemble(
            offsets,
            row_numbers,
            granularity,
            total_rows,
            is_complete,
            indexed_bytes,
            data_start,
        ))
    }
}

/// Sequences that increase from each element to the next increase throughout.
proof fn lemma_adjacent_to_sorted(rows: Seq<usize>, offsets: Seq<u64>, a: int, b: int)
    requires
        rows.len() == offsets.len(),
        0 <= a < b < rows.len(),
        forall|k: int| 0 < k < rows.len() ==> rows[k - 1] < #[trigger] rows[k],
        forall|k: int| 0 < k < offsets.len() ==> offsets[k - 1] < #[trigger] offsets[k],
    ensures
        rows[a] < rows[b],
        offsets[a] < offsets[b],
    decreases b - a,
{
    if a + 1 < b {
        lemma_adjacent_to_sorted(rows, offsets, a, b - 1);
    }
}

} // verus!
