//! Plain data types shared across the engine: points, rows, time ranges,
//! series keys and table schemas.

use vstd::multiset::Multiset;
use vstd::prelude::*;

verus! {

/// An inclusive range of timestamps.
#[derive(Clone, Copy, PartialEq, Eq, Structural, Debug)]
pub struct TimeRange {
    pub min_ts: i64,
    pub max_ts: i64,
}

impl TimeRange {
    /// Whether a timestamp falls inside the range (inclusive on both ends).
    pub open spec fn spec_contains(self, ts: i64) -> bool {
        self.min_ts <= ts <= self.max_ts
    }

    /// Executable containment test.
    pub fn contains(&self, ts: i64) -> (r: bool)
        ensures
            r == self.spec_contains(ts),
    {
        self.min_ts <= ts && ts <= self.max_ts
    }
}

/// One field written for one series at one timestamp, before a sequence
/// number has been assigned.
#[derive(Clone, Copy, PartialEq, Eq, Structural, Debug)]
pub struct Point {
    pub series_id: u64,
    pub ts: i64,
    pub column_id: u64,
    pub value: i64,
}

/// A committed row: a point stamped with the sequence number of the write
/// batch that carried it.
#[derive(Clone, Copy, PartialEq, Eq, Structural, Debug)]
pub struct Row {
    pub series_id: u64,
    pub ts: i64,
    pub column_id: u64,
    pub value: i64,
    pub seq: u64,
}

impl Row {
    /// The (series, timestamp, column) coordinate that duplicate
    /// resolution works over.
    pub open spec fn key(self) -> (u64, i64, u64) {
        (self.series_id, self.ts, self.column_id)
    }

    /// Builds the row committing a point under a sequence number.
    pub fn from_point(p: &Point, seq: u64) -> (r: Row)
        ensures
            r == (Row {
                series_id: p.series_id,
                ts: p.ts,
                column_id: p.column_id,
                value: p.value,
                seq,
            }),
    {
        Row { series_id: p.series_id, ts: p.ts, column_id: p.column_id, value: p.value, seq }
    }
}

/// The sequence of rows obtained by stamping every point of a batch with
/// one sequence number.
pub open spec fn rows_of_points(points: Seq<Point>, seq: u64) -> Seq<Row> {
    points.map_values(
        |p: Point| Row {
            series_id: p.series_id,
            ts: p.ts,
            column_id: p.column_id,
            value: p.value,
            seq,
        },
    )
}

/// One tag of a series key.
#[derive(Clone, PartialEq, Eq, Debug)]
pub struct Tag {
    pub key: String,
    pub value: String,
}

/// Identity of a series: measurement name plus its sorted tag set.
#[derive(Clone, PartialEq, Eq, Debug)]
pub struct SeriesKey {
    pub measurement: String,
    pub tags: Vec<Tag>,
}

/// Schema of one table: the set of column identifiers writes may address,
/// tagged with a version that advances on every schema change.
#[derive(Clone, PartialEq, Eq, Debug)]
pub struct TableSchema {
    pub schema_version: u64,
    pub columns: Vec<u64>,
}

impl TableSchema {
    /// Whether a column identifier belongs to the schema.
    pub open spec fn spec_has_column(self, column_id: u64) -> bool {
        self.columns@.contains(column_id)
    }

    /// Executable membership test over the schema's column set.
    pub fn has_column(&self, column_id: u64) -> (r: bool)
        ensures
            r == self.spec_has_column(column_id),
    {
        let mut i: usize = 0;
        while i < self.columns.len()
            invariant
                0 <= i <= self.columns@.len(),
                forall|j: int| 0 <= j < i ==> self.columns@[j] != column_id,
            decreases self.columns@.len() - i,
        {
            if self.columns[i] == column_id {
                return true;
            }
            i += 1;
        }
        false
    }
}

/// A recorded logical deletion: rows of this series — of one column, or
/// of every column when none is named — whose timestamp falls in the
/// range are excluded from reads and compactions.
#[derive(Clone, Copy, PartialEq, Eq, Structural, Debug)]
pub struct Tombstone {
    pub series_id: u64,
    pub column_id: Option<u64>,
    pub range: TimeRange,
}

impl Tombstone {
    /// Whether the tombstone covers a row.
    pub open spec fn covers(self, r: Row) -> bool {
        &&& self.series_id == r.series_id
        &&& match self.column_id {
            Some(c) => c == r.column_id,
            None => true,
        }
        &&& self.range.spec_contains(r.ts)
    }
}

/// Whether a row is covered by some tombstone of the sequence.
pub open spec fn spec_tombstoned(tombs: Seq<Tombstone>, r: Row) -> bool {
    exists|i: int| 0 <= i < tombs.len() && #[trigger] tombs[i].covers(r)
}

/// Executable test for [`spec_tombstoned`].
pub fn row_tombstoned(tombs: &Vec<Tombstone>, r: &Row) -> (res: bool)
    ensures
        res == spec_tombstoned(tombs@, *r),
{
    let mut i: usize = 0;
    while i < tombs.len()
        invariant
            0 <= i <= tombs@.len(),
            forall|j: int| 0 <= j < i ==> !(#[trigger] tombs@[j].covers(*r)),
        decreases tombs@.len() - i,
    {
        let t = tombs[i];
        let col_hit = match t.column_id {
            Some(c) => c == r.column_id,
            None => true,
        };
        if t.series_id == r.series_id && col_hit && t.range.contains(r.ts) {
            proof {
                assert(tombs@[i as int].covers(*r));
            }
            return true;
        }
        i += 1;
    }
    false
}

/// Copies a vector of plain values.
pub fn copy_vec<T: Copy>(v: &Vec<T>) -> (r: Vec<T>)
    ensures
        r@ == v@,
{
    let mut r: Vec<T> = Vec::new();
    let mut i: usize = 0;
    while i < v.len()
        invariant
            0 <= i <= v@.len(),
            r@ =~= v@.subrange(0, i as int),
        decreases v@.len() - i,
    {
        r.push(v[i]);
        proof {
            assert(r@ =~= v@.subrange(0, i + 1));
        }
        i += 1;
    }
    proof {
        assert(v@.subrange(0, v@.len() as int) =~= v@);
    }
    r
}

/// Total order on rows by (series, timestamp, column, sequence number),
/// the order immutable files keep.
pub open spec fn row_le(a: Row, b: Row) -> bool {
    if a.series_id != b.series_id {
        a.series_id < b.series_id
    } else if a.ts != b.ts {
        a.ts < b.ts
    } else if a.column_id != b.column_id {
        a.column_id < b.column_id
    } else if a.seq != b.seq {
        a.seq < b.seq
    } else {
        a.value <= b.value
    }
}

/// Whether a sequence of rows is sorted by [`row_le`].
pub open spec fn rows_sorted(s: Seq<Row>) -> bool {
    forall|i: int, j: int| 0 <= i < j < s.len() ==> row_le(s[i], s[j])
}

/// Executable comparison for [`row_le`].
pub fn row_le_exec(a: &Row, b: &Row) -> (r: bool)
    ensures
        r == row_le(*a, *b),
{
    if a.series_id != b.series_id {
        a.series_id < b.series_id
    } else if a.ts != b.ts {
        a.ts < b.ts
    } else if a.column_id != b.column_id {
        a.column_id < b.column_id
    } else if a.seq != b.seq {
        a.seq < b.seq
    } else {
        a.value <= b.value
    }
}

/// Sorts rows by (series, timestamp, column, sequence number), keeping
/// exactly the same rows.
pub fn sort_rows(input: &Vec<Row>) -> (r: Vec<Row>)
    ensures
        rows_sorted(r@),
        r@.to_multiset() == input@.to_multiset(),
        r@.len() == input@.len(),
{
    broadcast use vstd::seq_lib::group_to_multiset_ensures;

    let mut work = copy_vec(input);
    let mut out: Vec<Row> = Vec::new();
    proof {
        assert(out@.to_multiset().add(work@.to_multiset()) =~= input@.to_multiset());
    }
    while work.len() > 0
        invariant
            out@.to_multiset().add(work@.to_multiset()) == input@.to_multiset(),
            out@.len() + work@.len() == input@.len(),
            rows_sorted(out@),
            forall|i: int, j: int|
                0 <= i < out@.len() && 0 <= j < work@.len() ==> row_le(out@[i], work@[j]),
        decreases work@.len(),
    {
        let mut m: usize = 0;
        let mut j: usize = 1;
        while j < work.len()
            invariant
                0 < work@.len(),
                0 <= m < work@.len(),
                1 <= j <= work@.len(),
                forall|t: int| 0 <= t < j ==> row_le(work@[m as int], work@[t]),
            decreases work@.len() - j,
        {
            if row_le_exec(&work[j], &work[m]) {
                proof {
                    assert(forall|t: int|
                        0 <= t < j ==> row_le(work@[m as int], work@[t]) && row_le(
                            work@[j as int],
                            work@[m as int],
                        ) ==> row_le(work@[j as int], work@[t]));
                }
                m = j;
            }
            j += 1;
        }
        let ghost w0 = work@;
        let ghost out0 = out@;
        let least = work.remove(m);
        proof {
            broadcast use vstd::seq_lib::group_to_multiset_ensures;

            assert(least == w0[m as int]);
            assert(work@ == w0.remove(m as int));
            assert(work@.to_multiset() == w0.to_multiset().remove(least));
            assert(w0.contains(least));
            assert(w0.to_multiset().count(least) > 0);
        }
        out.push(least);
        proof {
            assert(out@ == out0.push(least));
            assert(out@.to_multiset() == out0.to_multiset().insert(least));
            assert(out@.to_multiset().add(work@.to_multiset()) =~= out0.to_multiset().add(
                w0.to_multiset(),
            ));
            assert forall|jj: int| 0 <= jj < work@.len() implies row_le(least, work@[jj]) by {
                if jj < m as int {
                    assert(work@[jj] == w0[jj]);
                } else {
                    assert(work@[jj] == w0[jj + 1]);
                }
            }
            assert forall|i: int, j2: int|
                0 <= i < j2 < out@.len() implies row_le(out@[i], out@[j2]) by {
                if j2 < out@.len() - 1 {
                    assert(row_le(out0[i], out0[j2]));
                } else {
                    assert(out@[j2] == least);
                }
            }
        }
    }
    proof {
        assert(work@.to_multiset() =~= Multiset::<Row>::empty());
        assert(out@.to_multiset() =~= out@.to_multiset().add(Multiset::<Row>::empty()));
    }
    out
}

/// Whether a logical delete over the given series, fields and range
/// covers a row. An empty field list covers every column.
pub open spec fn del_covers(sids: Seq<u64>, fids: Seq<u64>, range: TimeRange, r: Row) -> bool {
    &&& sids.contains(r.series_id)
    &&& (fids.len() == 0 || fids.contains(r.column_id))
    &&& range.spec_contains(r.ts)
}

/// Adding one tombstone extends coverage by exactly that tombstone.
pub proof fn lemma_tombstoned_push(tombs: Seq<Tombstone>, t: Tombstone, r: Row)
    ensures
        spec_tombstoned(tombs.push(t), r) == (spec_tombstoned(tombs, r) || t.covers(r)),
{
    if spec_tombstoned(tombs.push(t), r) {
        let i = choose|i: int| 0 <= i < tombs.push(t).len() && #[trigger] tombs.push(t)[i].covers(r);
        if i < tombs.len() {
            assert(tombs[i].covers(r));
        } else {
            assert(tombs.push(t)[i] == t);
        }
    }
    if spec_tombstoned(tombs, r) {
        let i = choose|i: int| 0 <= i < tombs.len() && #[trigger] tombs[i].covers(r);
        assert(tombs.push(t)[i].covers(r));
    }
    if t.covers(r) {
        assert(tombs.push(t)[tombs.len() as int].covers(r));
    }
}

/// Concatenating tombstone lists unions their coverage.
pub proof fn lemma_tombstoned_add(a: Seq<Tombstone>, b: Seq<Tombstone>, r: Row)
    ensures
        spec_tombstoned(a + b, r) == (spec_tombstoned(a, r) || spec_tombstoned(b, r)),
{
    if spec_tombstoned(a + b, r) {
        let i = choose|i: int| 0 <= i < (a + b).len() && #[trigger] (a + b)[i].covers(r);
        if i < a.len() {
            assert(a[i].covers(r));
        } else {
            assert(b[i - a.len()].covers(r));
        }
    }
    if spec_tombstoned(a, r) {
        let i = choose|i: int| 0 <= i < a.len() && #[trigger] a[i].covers(r);
        assert((a + b)[i].covers(r));
    }
    if spec_tombstoned(b, r) {
        let i = choose|i: int| 0 <= i < b.len() && #[trigger] b[i].covers(r);
        assert((a + b)[a.len() + i].covers(r));
    }
}

/// Builds the tombstones recording one logical delete: one per series
/// when the field list is empty (covering every column), else one per
/// (series, field) pair.
pub fn make_tombstones(sids: &Vec<u64>, fids: &Vec<u64>, range: TimeRange) -> (out: Vec<Tombstone>)
    ensures
        forall|r: Row| spec_tombstoned(out@, r) == del_covers(sids@, fids@, range, r),
{
    let mut out: Vec<Tombstone> = Vec::new();
    let mut i: usize = 0;
    proof {
        assert forall|r: Row| spec_tombstoned(out@, r) == false by {
            if spec_tombstoned(out@, r) {
                let k = choose|k: int| 0 <= k < out@.len() && #[trigger] out@[k].covers(r);
            }
        }
    }
    while i < sids.len()
        invariant
            0 <= i <= sids@.len(),
            forall|r: Row|
                spec_tombstoned(out@, r) == (sids@.subrange(0, i as int).contains(r.series_id) && (
                fids@.len() == 0 || fids@.contains(r.column_id)) && range.spec_contains(r.ts)),
        decreases sids@.len() - i,
    {
        let sid = sids[i];
        if fids.len() == 0 {
            let ghost out0 = out@;
            out.push(Tombstone { series_id: sid, column_id: None, range });
            proof {
                assert forall|r: Row|
                    spec_tombstoned(out@, r) == (sids@.subrange(0, i + 1).contains(r.series_id) && (
                    fids@.len() == 0 || fids@.contains(r.column_id)) && range.spec_contains(
                        r.ts,
                    )) by {
                    lemma_tombstoned_push(
                        out0,
                        Tombstone { series_id: sid, column_id: None, range },
                        r,
                    );
                    assert(spec_tombstoned(out0, r) == (sids@.subrange(0, i as int).contains(
                        r.series_id,
                    ) && (fids@.len() == 0 || fids@.contains(r.column_id)) && range.spec_contains(
                        r.ts,
                    )));
                    assert(sids@.subrange(0, i + 1) =~= sids@.subrange(0, i as int).push(sid));
                    if sids@.subrange(0, i + 1).contains(r.series_id) {
                        let k = choose|k: int|
                            0 <= k < i + 1 && #[trigger] sids@.subrange(0, i + 1)[k] == r.series_id;
                        if k < i as int {
                            assert(sids@.subrange(0, i as int)[k] == r.series_id);
                        }
                    }
                    if sids@.subrange(0, i as int).contains(r.series_id) {
                        let k = choose|k: int|
                            0 <= k < i && #[trigger] sids@.subrange(0, i as int)[k] == r.series_id;
                        assert(sids@.subrange(0, i + 1)[k] == r.series_id);
                    }
                    if r.series_id == sid {
                        assert(sids@.subrange(0, i + 1)[i as int] == r.series_id);
                    }
                    assert(sids@.subrange(0, i + 1).contains(r.series_id) == (sids@.subrange(
                        0,
                        i as int,
                    ).contains(r.series_id) || r.series_id == sid));
                }
            }
        } else {
            let mut j: usize = 0;
            while j < fids.len()
                invariant
                    0 <= j <= fids@.len(),
                    0 <= i < sids@.len(),
                    sid == sids@[i as int],
                    fids@.len() > 0,
                    forall|r: Row|
                        spec_tombstoned(out@, r) == ((sids@.subrange(0, i as int).contains(
                            r.series_id,
                        ) && fids@.contains(r.column_id) && range.spec_contains(r.ts)) || (
                        r.series_id == sid && fids@.subrange(0, j as int).contains(r.column_id)
                            && range.spec_contains(r.ts))),
                decreases fids@.len() - j,
            {
                let fid = fids[j];
                let ghost out0 = out@;
                out.push(Tombstone { series_id: sid, column_id: Some(fid), range });
                proof {
                    assert forall|r: Row|
                        spec_tombstoned(out@, r) == ((sids@.subrange(0, i as int).contains(
                            r.series_id,
                        ) && fids@.contains(r.column_id) && range.spec_contains(r.ts)) || (
                        r.series_id == sid && fids@.subrange(0, j + 1).contains(r.column_id)
                            && range.spec_contains(r.ts))) by {
                        lemma_tombstoned_push(
                            out0,
                            Tombstone { series_id: sid, column_id: Some(fid), range },
                            r,
                        );
                        assert(spec_tombstoned(out0, r) == ((sids@.subrange(0, i as int).contains(
                            r.series_id,
                        ) && fids@.contains(r.column_id) && range.spec_contains(r.ts)) || (
                        r.series_id == sid && fids@.subrange(0, j as int).contains(r.column_id)
                            && range.spec_contains(r.ts))));
                        assert(fids@.subrange(0, j + 1) =~= fids@.subrange(0, j as int).push(fid));
                        if fids@.subrange(0, j + 1).contains(r.column_id) {
                            let k = choose|k: int|
                                0 <= k < j + 1 && #[trigger] fids@.subrange(0, j + 1)[k] == r.column_id;
                            if k < j as int {
                                assert(fids@.subrange(0, j as int)[k] == r.column_id);
                            }
                        }
                        if fids@.subrange(0, j as int).contains(r.column_id) {
                            let k = choose|k: int|
                                0 <= k < j && #[trigger] fids@.subrange(0, j as int)[k] == r.column_id;
                            assert(fids@.subrange(0, j + 1)[k] == r.column_id);
                        }
                        if r.column_id == fid {
                            assert(fids@.subrange(0, j + 1)[j as int] == r.column_id);
                            assert(fids@.contains(r.column_id));
                        }
                        assert(fids@.subrange(0, j + 1).contains(r.column_id) == (fids@.subrange(
                            0,
                            j as int,
                        ).contains(r.column_id) || r.column_id == fid));
                    }
                }
                j += 1;
            }
            proof {
                assert(fids@.subrange(0, fids@.len() as int) =~= fids@);
                assert forall|r: Row|
                    spec_tombstoned(out@, r) == (sids@.subrange(0, i + 1).contains(r.series_id) && (
                    fids@.len() == 0 || fids@.contains(r.column_id)) && range.spec_contains(
                        r.ts,
                    )) by {
                    assert(sids@.subrange(0, i + 1) =~= sids@.subrange(0, i as int).push(sid));
                    if sids@.subrange(0, i + 1).contains(r.series_id) {
                        let k = choose|k: int|
                            0 <= k < i + 1 && #[trigger] sids@.subrange(0, i + 1)[k] == r.series_id;
                        if k < i as int {
                            assert(sids@.subrange(0, i as int)[k] == r.series_id);
                        }
                    }
                    if sids@.subrange(0, i as int).contains(r.series_id) {
                        let k = choose|k: int|
                            0 <= k < i && #[trigger] sids@.subrange(0, i as int)[k] == r.series_id;
                        assert(sids@.subrange(0, i + 1)[k] == r.series_id);
                    }
                    if r.series_id == sid {
                        assert(sids@.subrange(0, i + 1)[i as int] == r.series_id);
                    }
                }
            }
        }
        i += 1;
    }
    proof {
        assert(sids@.subrange(0, sids@.len() as int) =~= sids@);
    }
    out
}

/// Two positions holding the same row give it a multiset count of at
/// least two.
pub proof fn lemma_two_positions_count(s: Seq<Row>, k1: int, k2: int)
    requires
        0 <= k1 < k2 < s.len(),
        s[k1] == s[k2],
    ensures
        s.to_multiset().count(s[k1]) >= 2,
{
    broadcast use vstd::seq_lib::group_to_multiset_ensures;

    let s2 = s.remove(k1);
    assert(s2.to_multiset() =~= s.to_multiset().remove(s[k1]));
    assert(s2[k2 - 1] == s[k2]);
    assert(s2.contains(s[k1]));
    assert(s2.to_multiset().count(s[k1]) > 0);
}

/// A multiset count of at least two puts the row at two positions.
pub proof fn lemma_count_two_positions(s: Seq<Row>, x: Row)
    requires
        s.to_multiset().count(x) >= 2,
    ensures
        exists|k1: int, k2: int| #![trigger s[k1], s[k2]]
            0 <= k1 < k2 < s.len() && s[k1] == x && s[k2] == x,
{
    broadcast use vstd::seq_lib::group_to_multiset_ensures;

    assert(s.contains(x));
    let i = choose|i: int| 0 <= i < s.len() && s[i] == x;
    let s2 = s.remove(i);
    assert(s2.to_multiset() =~= s.to_multiset().remove(x));
    assert(s2.to_multiset().count(x) > 0);
    assert(s2.contains(x));
    let j = choose|j: int| 0 <= j < s2.len() && s2[j] == x;
    if j < i {
        assert(s[j] == s2[j]);
        assert(0 <= j < i < s.len() && s[j] == x && s[i] == x);
    } else {
        assert(s[j + 1] == s2[j]);
        assert(0 <= i < j + 1 < s.len() && s[i] == x && s[j + 1] == x);
    }
}

} // verus!
