//! Mutable in-memory buffer of one time-series family: recently written
//! rows, queryable immediately, flushed to an immutable file when the
//! controller decides to. The buffer is passive: it never starts I/O
//! itself; it only reports when it has outgrown its configured threshold.

use vstd::prelude::*;

use crate::types::{copy_vec, rows_of_points, rows_sorted, sort_rows, Point, Row, TimeRange};

verus! {

/// The rows of `rows` that belong to `series_id` and fall inside `tr`.
pub open spec fn range_filter(rows: Seq<Row>, series_id: u64, tr: TimeRange) -> Seq<Row> {
    rows.filter(|r: Row| r.series_id == series_id && tr.spec_contains(r.ts))
}

/// In-memory buffer of rows not yet flushed to an immutable file.
pub struct MutableBuffer {
    pub rows: Vec<Row>,
    pub max_size: usize,
}

impl MutableBuffer {
    /// The buffered rows, in arrival order.
    pub open spec fn contents(self) -> Seq<Row> {
        self.rows@
    }

    /// An empty buffer with the given flush threshold.
    pub fn new(max_size: usize) -> (r: MutableBuffer)
        ensures
            r.contents() == Seq::<Row>::empty(),
            r.max_size == max_size,
    {
        let b = MutableBuffer { rows: Vec::new(), max_size };
        proof {
            assert(b.contents() =~= Seq::<Row>::empty());
        }
        b
    }

    /// Appends every point of a batch, stamped with one sequence number.
    pub fn insert_batch(&mut self, points: &Vec<Point>, seq: u64)
        ensures
            final(self).contents() == old(self).contents() + rows_of_points(points@, seq),
            final(self).max_size == old(self).max_size,
    {
        let mut i: usize = 0;
        proof {
            assert(self.contents() =~= old(self).contents() + rows_of_points(
                points@.subrange(0, 0),
                seq,
            ));
        }
        while i < points.len()
            invariant
                0 <= i <= points@.len(),
                self.max_size == old(self).max_size,
                self.contents() == old(self).contents() + rows_of_points(
                    points@.subrange(0, i as int),
                    seq,
                ),
            decreases points@.len() - i,
        {
            let r = Row::from_point(&points[i], seq);
            self.rows.push(r);
            proof {
                assert(points@.subrange(0, i + 1) =~= points@.subrange(0, i as int).push(
                    points@[i as int],
                ));
                assert(self.contents() =~= old(self).contents() + rows_of_points(
                    points@.subrange(0, i + 1),
                    seq,
                ));
            }
            i += 1;
        }
        proof {
            assert(points@.subrange(0, points@.len() as int) =~= points@);
        }
    }

    /// Whether the buffer holds no rows.
    pub fn is_empty(&self) -> (r: bool)
        ensures
            r == (self.contents().len() == 0),
    {
        self.rows.len() == 0
    }

    /// Whether the buffer has outgrown its threshold, so the controller
    /// should schedule a flush.
    pub fn exceeds_threshold(&self) -> (r: bool)
        ensures
            r == (self.contents().len() >= self.max_size),
    {
        self.rows.len() >= self.max_size
    }

    /// An immutable copy of the buffered rows. Writers never touch a
    /// snapshot handed to a reader.
    pub fn snapshot(&self) -> (r: Vec<Row>)
        ensures
            r@ == self.contents(),
    {
        copy_vec(&self.rows)
    }

    /// Drops every buffered row, keeping the threshold.
    pub fn clear(&mut self)
        ensures
            final(self).contents() == Seq::<Row>::empty(),
            final(self).max_size == old(self).max_size,
    {
        self.rows.clear();
        proof {
            assert(self.contents() =~= Seq::<Row>::empty());
        }
    }

    /// The buffered rows of one series inside a time range, merged in
    /// timestamp order.
    pub fn read_range(&self, series_id: u64, tr: TimeRange) -> (r: Vec<Row>)
        ensures
            rows_sorted(r@),
            r@.to_multiset() == range_filter(self.contents(), series_id, tr).to_multiset(),
    {
        let filtered = filter_rows(&self.rows, series_id, tr);
        sort_rows(&filtered)
    }
}

/// Keeps exactly the rows of `series_id` inside `tr`, in stored order.
pub fn filter_rows(rows: &Vec<Row>, series_id: u64, tr: TimeRange) -> (r: Vec<Row>)
    ensures
        r@ == range_filter(rows@, series_id, tr),
{
    proof {
        reveal(Seq::filter);
    }
    let ghost pred = |r: Row| r.series_id == series_id && tr.spec_contains(r.ts);
    let mut out: Vec<Row> = Vec::new();
    let mut i: usize = 0;
    proof {
        assert(rows@.subrange(0, 0) =~= Seq::<Row>::empty());
        assert(out@ =~= rows@.subrange(0, 0).filter(pred));
    }
    while i < rows.len()
        invariant
            0 <= i <= rows@.len(),
            pred == (|r: Row| r.series_id == series_id && tr.spec_contains(r.ts)),
            out@ == rows@.subrange(0, i as int).filter(pred),
        decreases rows@.len() - i,
    {
        let ghost pre = rows@.subrange(0, i as int);
        let ghost cur = rows@[i as int];
        proof {
            reveal(Seq::filter);
            assert(rows@.subrange(0, i + 1) =~= pre.push(cur));
            assert(pre.push(cur).drop_last() =~= pre);
        }
        let row = rows[i];
        if row.series_id == series_id && tr.contains(row.ts) {
            out.push(row);
        }
        i += 1;
    }
    proof {
        assert(rows@.subrange(0, rows@.len() as int) =~= rows@);
    }
    out
}

} // verus!
