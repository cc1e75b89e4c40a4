//! Immutable sorted files: append-once storage units produced by flushing
//! the buffer or by compaction. A file keeps its rows sorted, records the
//! time range they cover, and carries a checksum so corruption is caught
//! when the file is opened or read.

use vstd::prelude::*;

use crate::memcache::{filter_rows, range_filter};
use crate::summary::FileMeta;
use crate::types::{copy_vec, rows_sorted, sort_rows, Row, TimeRange};

verus! {

/// A timestamp reinterpreted as an unsigned word for hashing.
pub open spec fn cast64(x: i64) -> u64 {
    x as u64
}

/// One mixing step of the rolling digest.
pub open spec fn mix(h: u64, x: u64) -> u64 {
    vstd::wrapping::u64_specs::wrapping_add(
        vstd::wrapping::u64_specs::wrapping_mul(h, 0x100000001b3),
        x,
    )
}

/// Digest of one row: its five fields folded into a word.
pub open spec fn row_digest(r: Row) -> u64 {
    mix(mix(mix(mix(mix(0xcbf29ce484222325, r.series_id), cast64(r.ts)), r.column_id), cast64(r.value)), r.seq)
}

/// Rolling digest of a sequence of rows, in order.
pub open spec fn rows_digest(rows: Seq<Row>) -> u64
    decreases rows.len(),
{
    if rows.len() == 0 {
        0xcbf29ce484222325
    } else {
        mix(rows_digest(rows.drop_last()), row_digest(rows.last()))
    }
}

/// Computes the digest of one row.
pub fn row_digest_exec(r: &Row) -> (d: u64)
    ensures
        d == row_digest(*r),
{
    let mut h: u64 = 0xcbf29ce484222325;
    h = h.wrapping_mul(0x100000001b3).wrapping_add(r.series_id);
    h = h.wrapping_mul(0x100000001b3).wrapping_add(#[verifier::truncate] (r.ts as u64));
    h = h.wrapping_mul(0x100000001b3).wrapping_add(r.column_id);
    h = h.wrapping_mul(0x100000001b3).wrapping_add(#[verifier::truncate] (r.value as u64));
    h = h.wrapping_mul(0x100000001b3).wrapping_add(r.seq);
    h
}

/// Computes the rolling digest of the rows, in order.
pub fn rows_digest_exec(rows: &Vec<Row>) -> (d: u64)
    ensures
        d == rows_digest(rows@),
{
    let mut h: u64 = 0xcbf29ce484222325;
    let mut i: usize = 0;
    proof {
        assert(rows@.subrange(0, 0) =~= Seq::<Row>::empty());
    }
    while i < rows.len()
        invariant
            0 <= i <= rows@.len(),
            h == rows_digest(rows@.subrange(0, i as int)),
        decreases rows@.len() - i,
    {
        let rd = row_digest_exec(&rows[i]);
        h = h.wrapping_mul(0x100000001b3).wrapping_add(rd);
        proof {
            let pre = rows@.subrange(0, i as int);
            assert(rows@.subrange(0, i + 1) =~= pre.push(rows@[i as int]));
            assert(pre.push(rows@[i as int]).drop_last() =~= pre);
        }
        i += 1;
    }
    proof {
        assert(rows@.subrange(0, rows@.len() as int) =~= rows@);
    }
    h
}

/// An immutable sorted file: rows sorted by (series, timestamp, column,
/// sequence), the covered time range, and a checksum over the rows.
#[derive(Debug)]
pub struct ColumnFile {
    pub file_id: u64,
    pub schema_version: u64,
    pub time_range: TimeRange,
    pub rows: Vec<Row>,
    pub checksum: u64,
}

impl ColumnFile {
    /// Well-formedness: the rows are sorted, covered by the recorded time
    /// range, and the checksum matches their digest.
    pub open spec fn wf(self) -> bool {
        &&& rows_sorted(self.rows@)
        &&& self.checksum == rows_digest(self.rows@)
        &&& forall|i: int|
            0 <= i < self.rows@.len() ==> self.time_range.spec_contains(#[trigger] self.rows@[i].ts)
    }

    /// The manifest metadata of the file.
    pub open spec fn spec_meta(self) -> FileMeta {
        FileMeta {
            file_id: self.file_id,
            time_range: self.time_range,
            schema_version: self.schema_version,
        }
    }

    /// Builds the manifest metadata of the file.
    pub fn meta(&self) -> (m: FileMeta)
        ensures
            m == self.spec_meta(),
    {
        FileMeta {
            file_id: self.file_id,
            time_range: self.time_range,
            schema_version: self.schema_version,
        }
    }

    /// Writes an immutable file from rows, sorting them and recording
    /// their time range and digest. A file is registered in a version
    /// edit only after this call has fully built it.
    pub fn write_blocks(file_id: u64, schema_version: u64, rows: &Vec<Row>) -> (f: ColumnFile)
        ensures
            f.wf(),
            f.file_id == file_id,
            f.schema_version == schema_version,
            f.rows@.to_multiset() == rows@.to_multiset(),
            f.rows@.len() == rows@.len(),
    {
        let sorted = sort_rows(rows);
        Self::file_from_sorted_rows(file_id, schema_version, sorted)
    }

    /// Builds an immutable file around rows that are already sorted; the
    /// file holds exactly them.
    pub fn file_from_sorted_rows(file_id: u64, schema_version: u64, rows: Vec<Row>) -> (f:
        ColumnFile)
        requires
            rows_sorted(rows@),
        ensures
            f.wf(),
            f.file_id == file_id,
            f.schema_version == schema_version,
            f.rows@ == rows@,
    {
        let sorted = rows;
        let mut min_ts: i64 = i64::MAX;
        let mut max_ts: i64 = i64::MIN;
        let mut i: usize = 0;
        while i < sorted.len()
            invariant
                0 <= i <= sorted@.len(),
                forall|j: int|
                    0 <= j < i ==> min_ts <= #[trigger] sorted@[j].ts && sorted@[j].ts <= max_ts,
            decreases sorted@.len() - i,
        {
            let t = sorted[i].ts;
            if t < min_ts {
                min_ts = t;
            }
            if t > max_ts {
                max_ts = t;
            }
            i += 1;
        }
        let checksum = rows_digest_exec(&sorted);
        ColumnFile {
            file_id,
            schema_version,
            time_range: TimeRange { min_ts, max_ts },
            rows: sorted,
            checksum,
        }
    }

    /// Verifies the file's integrity: recomputes the digest of its rows
    /// and compares it with the stored checksum.
    pub fn verify_checksum(&self) -> (r: bool)
        ensures
            r == (self.checksum == rows_digest(self.rows@)),
    {
        let d = rows_digest_exec(&self.rows);
        self.checksum == d
    }

    /// The file's rows of one series inside a time range, in timestamp
    /// order. Random access goes by series and time over the sorted rows.
    pub fn read_blocks(&self, series_id: u64, tr: TimeRange) -> (r: Vec<Row>)
        ensures
            rows_sorted(r@),
            r@.to_multiset() == range_filter(self.rows@, series_id, tr).to_multiset(),
    {
        let filtered = filter_rows(&self.rows, series_id, tr);
        sort_rows(&filtered)
    }

    /// A copy of the file, equal at the model level.
    pub fn duplicate(&self) -> (r: ColumnFile)
        ensures
            r.file_id == self.file_id,
            r.schema_version == self.schema_version,
            r.time_range == self.time_range,
            r.rows@ == self.rows@,
            r.checksum == self.checksum,
    {
        ColumnFile {
            file_id: self.file_id,
            schema_version: self.schema_version,
            time_range: self.time_range,
            rows: copy_vec(&self.rows),
            checksum: self.checksum,
        }
    }
}

} // verus!
