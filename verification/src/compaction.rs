//! Compaction: merges the rows of overlapping immutable files into one
//! non-overlapping output, dropping tombstoned rows and resolving
//! duplicate (series, timestamp, column) entries by last write wins on
//! the sequence number. Inputs stay valid until the version edit that
//! swaps them out commits.

use vstd::prelude::*;

use crate::types::{copy_vec, spec_tombstoned, row_tombstoned, Row, Tombstone};

verus! {

/// Whether the row at position `i` survives the merge: it is not
/// tombstoned, and every other row with the same (series, timestamp,
/// column) coordinate loses to it — by lower sequence number, or by
/// earlier position when sequence numbers tie.
pub open spec fn wins(rows: Seq<Row>, tombs: Seq<Tombstone>, i: int) -> bool {
    &&& 0 <= i < rows.len()
    &&& !spec_tombstoned(tombs, rows[i])
    &&& forall|j: int|
        0 <= j < rows.len() && j != i && #[trigger] rows[j].key() == rows[i].key() ==> (
        rows[j].seq < rows[i].seq || (rows[j].seq == rows[i].seq && j < i))
}

/// The set of rows visible in a row collection under tombstones: the
/// surviving entry of each (series, timestamp, column) coordinate.
pub open spec fn visible_rows(rows: Seq<Row>, tombs: Seq<Tombstone>) -> Set<Row> {
    Set::new(|r: Row| exists|i: int| #[trigger] wins(rows, tombs, i) && rows[i] == r)
}

/// At most one position per coordinate survives.
pub proof fn lemma_winner_unique(rows: Seq<Row>, tombs: Seq<Tombstone>, i: int, j: int)
    requires
        wins(rows, tombs, i),
        wins(rows, tombs, j),
        rows[i].key() == rows[j].key(),
    ensures
        i == j,
{
    if i != j {
        assert(rows[j].seq < rows[i].seq || (rows[j].seq == rows[i].seq && j < i));
        assert(rows[i].seq < rows[j].seq || (rows[i].seq == rows[j].seq && i < j));
    }
}

/// The surviving entry of a coordinate carries the highest sequence
/// number among that coordinate's rows.
pub proof fn lemma_winner_has_max_seq(rows: Seq<Row>, tombs: Seq<Tombstone>, i: int, j: int)
    requires
        wins(rows, tombs, i),
        0 <= j < rows.len(),
        rows[j].key() == rows[i].key(),
    ensures
        rows[j].seq <= rows[i].seq,
{
}

/// The position of the surviving entry for the coordinate of `rows[j]`
/// among the first `n` rows, ignoring tombstones: the row with the
/// highest sequence number, latest position breaking ties.
pub open spec fn best_idx(rows: Seq<Row>, j: int, n: int) -> int
    decreases n,
{
    if n <= 1 {
        0
    } else {
        let b = best_idx(rows, j, n - 1);
        if rows[n - 1].key() == rows[j].key() && (!(rows[b].key() == rows[j].key()) || rows[b].seq
            <= rows[n - 1].seq) {
            n - 1
        } else {
            b
        }
    }
}

/// The candidate position is in range, matches the coordinate, and
/// dominates every row of that coordinate.
pub proof fn lemma_best_idx(rows: Seq<Row>, j: int, n: int)
    requires
        0 <= j < n <= rows.len(),
    ensures
        0 <= best_idx(rows, j, n) < n,
        rows[best_idx(rows, j, n)].key() == rows[j].key(),
        forall|t: int|
            0 <= t < n && #[trigger] rows[t].key() == rows[j].key() ==> (rows[t].seq
                < rows[best_idx(rows, j, n)].seq || (rows[t].seq == rows[best_idx(rows, j, n)].seq
                && t <= best_idx(rows, j, n))),
    decreases n,
{
    if n <= 1 {
    } else {
        if j < n - 1 {
            lemma_best_idx(rows, j, n - 1);
        } else {
            if n >= 2 && j == n - 1 {
                // the candidate among the first n-1 rows may or may not match
                if exists|t: int| 0 <= t < n - 1 && #[trigger] rows[t].key() == rows[j].key() {
                    let w = choose|t: int|
                        0 <= t < n - 1 && #[trigger] rows[t].key() == rows[j].key();
                    lemma_best_idx(rows, w, n - 1);
                    assert(rows[best_idx(rows, w, n - 1)].key() == rows[j].key());
                    lemma_best_same_key(rows, j, w, n - 1);
                } else {
                    lemma_best_no_key(rows, j, n - 1);
                }
            }
        }
    }
}

/// Two rows with the same coordinate have the same surviving position.
pub proof fn lemma_best_same_key(rows: Seq<Row>, j1: int, j2: int, n: int)
    requires
        0 <= j1 < rows.len(),
        0 <= j2 < rows.len(),
        rows[j1].key() == rows[j2].key(),
    ensures
        best_idx(rows, j1, n) == best_idx(rows, j2, n),
    decreases n,
{
    if n > 1 {
        lemma_best_same_key(rows, j1, j2, n - 1);
    }
}

/// When no row among the first `n` matches the coordinate, the candidate
/// stays at position zero without matching.
pub proof fn lemma_best_no_key(rows: Seq<Row>, j: int, n: int)
    requires
        0 <= j < rows.len(),
        forall|t: int| 0 <= t < n ==> !(#[trigger] rows[t].key() == rows[j].key()),
    ensures
        best_idx(rows, j, n) == 0,
    decreases n,
{
    if n > 1 {
        lemma_best_no_key(rows, j, n - 1);
    }
}

/// Every coordinate that is not tombstoned keeps a surviving entry with
/// at least the sequence number of each of its rows.
pub proof fn lemma_key_has_winner(rows: Seq<Row>, tombs: Seq<Tombstone>, j: int)
    requires
        0 <= j < rows.len(),
        !spec_tombstoned(tombs, rows[j]),
    ensures
        exists|i: int|
            #[trigger] wins(rows, tombs, i) && rows[i].key() == rows[j].key() && rows[i].seq
                >= rows[j].seq,
{
    let n = rows.len() as int;
    let b = best_idx(rows, j, n);
    lemma_best_idx(rows, j, n);
    assert(rows[b].key() == rows[j].key());
    // tombstoning depends only on coordinate fields, which agree
    assert(rows[b].series_id == rows[j].series_id && rows[b].column_id == rows[j].column_id
        && rows[b].ts == rows[j].ts);
    assert forall|ti: int| 0 <= ti < tombs.len() implies (#[trigger] tombs[ti].covers(rows[b])
        == tombs[ti].covers(rows[j])) by {}
    assert(!spec_tombstoned(tombs, rows[b]));
    assert(wins(rows, tombs, b));
}

/// Whether `r` stands at a surviving position below `bound` in `rows`.
pub open spec fn winner_source(rows: Seq<Row>, tombs: Seq<Tombstone>, bound: int, r: Row) -> bool {
    exists|t: int| 0 <= t < bound && #[trigger] wins(rows, tombs, t) && rows[t] == r
}

/// A surviving position below one bound survives below any larger one.
pub proof fn lemma_winner_source_widen(
    rows: Seq<Row>,
    tombs: Seq<Tombstone>,
    b1: int,
    b2: int,
    r: Row,
)
    requires
        winner_source(rows, tombs, b1, r),
        b1 <= b2,
    ensures
        winner_source(rows, tombs, b2, r),
{
    let t = choose|t: int| 0 <= t < b1 && #[trigger] wins(rows, tombs, t) && rows[t] == r;
    assert(0 <= t < b2 && wins(rows, tombs, t) && rows[t] == r);
}

/// Merges a row collection: keeps exactly the surviving entry of each
/// coordinate, in input order. The output has pairwise distinct
/// coordinates.
pub fn compact_rows(rows: &Vec<Row>, tombs: &Vec<Tombstone>) -> (out: Vec<Row>)
    ensures
        forall|k: int|
            0 <= k < out@.len() ==> winner_source(
                rows@,
                tombs@,
                rows@.len() as int,
                #[trigger] out@[k],
            ),
        forall|i: int| #[trigger] wins(rows@, tombs@, i) ==> out@.contains(rows@[i]),
        forall|k1: int, k2: int|
            0 <= k1 < k2 < out@.len() ==> !(out@[k1].key() == out@[k2].key()),
{
    let mut out: Vec<Row> = Vec::new();
    let mut i: usize = 0;
    while i < rows.len()
        invariant
            0 <= i <= rows@.len(),
            forall|k: int|
                0 <= k < out@.len() ==> winner_source(rows@, tombs@, i as int, #[trigger] out@[k]),
            forall|t: int|
                0 <= t < i && #[trigger] wins(rows@, tombs@, t) ==> out@.contains(rows@[t]),
            forall|k1: int, k2: int|
                0 <= k1 < k2 < out@.len() ==> !(out@[k1].key() == out@[k2].key()),
        decreases rows@.len() - i,
    {
        if row_wins(rows, tombs, i) {
            let ghost out0 = out@;
            out.push(rows[i]);
            proof {
                assert(out@ == out0.push(rows@[i as int]));
                assert(wins(rows@, tombs@, i as int));
                assert(out@[out@.len() - 1] == rows@[i as int]);
                assert forall|k1: int, k2: int|
                    0 <= k1 < k2 < out@.len() implies !(out@[k1].key() == out@[k2].key()) by {
                    if k2 == out@.len() - 1 {
                        assert(out@[k1] == out0[k1]);
                        if out@[k1].key() == out@[k2].key() {
                            assert(winner_source(rows@, tombs@, i as int, out0[k1]));
                            let t = choose|t: int|
                                0 <= t < i && #[trigger] wins(rows@, tombs@, t) && rows@[t]
                                    == out0[k1];
                            assert(rows@[t].key() == rows@[i as int].key());
                            lemma_winner_unique(rows@, tombs@, t, i as int);
                            assert(false);
                        }
                    } else {
                        assert(out@[k1] == out0[k1] && out@[k2] == out0[k2]);
                    }
                }
                assert forall|t: int|
                    0 <= t < i + 1 && #[trigger] wins(rows@, tombs@, t) implies out@.contains(
                    rows@[t],
                ) by {
                    if t < i as int {
                        assert(out0.contains(rows@[t]));
                        let kk = choose|kk: int| 0 <= kk < out0.len() && out0[kk] == rows@[t];
                        assert(out@[kk] == rows@[t]);
                    } else {
                        assert(out@[out@.len() - 1] == rows@[t]);
                    }
                }
                assert forall|k: int| 0 <= k < out@.len() implies winner_source(
                    rows@,
                    tombs@,
                    i + 1,
                    #[trigger] out@[k],
                ) by {
                    if k < out@.len() - 1 {
                        assert(out@[k] == out0[k]);
                        assert(winner_source(rows@, tombs@, i as int, out0[k]));
                        lemma_winner_source_widen(rows@, tombs@, i as int, i + 1, out0[k]);
                    } else {
                        let t = i as int;
                        assert(0 <= t < i + 1 && wins(rows@, tombs@, t) && rows@[t] == out@[k]);
                    }
                }
            }
        } else {
            proof {
                assert forall|k: int| 0 <= k < out@.len() implies winner_source(
                    rows@,
                    tombs@,
                    i + 1,
                    #[trigger] out@[k],
                ) by {
                    lemma_winner_source_widen(rows@, tombs@, i as int, i + 1, out@[k]);
                }
            }
        }
        i += 1;
    }
    proof {
        assert forall|k: int| 0 <= k < out@.len() implies winner_source(
            rows@,
            tombs@,
            rows@.len() as int,
            #[trigger] out@[k],
        ) by {
            lemma_winner_source_widen(rows@, tombs@, i as int, rows@.len() as int, out@[k]);
        }
    }
    out
}

/// Whether the row at position `i` survives, computed directly.
fn row_wins(rows: &Vec<Row>, tombs: &Vec<Tombstone>, i: usize) -> (r: bool)
    requires
        i < rows@.len(),
    ensures
        r == wins(rows@, tombs@, i as int),
{
    let me = rows[i];
    if row_tombstoned(tombs, &me) {
        return false;
    }
    let mut j: usize = 0;
    while j < rows.len()
        invariant
            0 <= j <= rows@.len(),
            i < rows@.len(),
            me == rows@[i as int],
            !spec_tombstoned(tombs@, me),
            forall|t: int|
                0 <= t < j && t != i && #[trigger] rows@[t].key() == me.key() ==> (rows@[t].seq
                    < me.seq || (rows@[t].seq == me.seq && t < i)),
        decreases rows@.len() - j,
    {
        if j != i {
            let other = rows[j];
            if other.series_id == me.series_id && other.ts == me.ts && other.column_id
                == me.column_id {
                let beaten = other.seq > me.seq || (other.seq == me.seq && j > i);
                if beaten {
                    proof {
                        assert(rows@[j as int].key() == rows@[i as int].key());
                        assert(!wins(rows@, tombs@, i as int));
                    }
                    return false;
                }
            }
        }
        j += 1;
    }
    true
}

/// Compaction preserves the visible rows: the rows visible through the
/// merged output are exactly the rows visible through its inputs —
/// non-tombstoned coordinates resolved to their highest sequence number.
pub proof fn lemma_compaction_preserves_visible(
    input: Seq<Row>,
    tombs: Seq<Tombstone>,
    out: Seq<Row>,
)
    requires
        forall|k: int|
            0 <= k < out.len() ==> winner_source(input, tombs, input.len() as int, #[trigger] out[k]),
        forall|i: int| #[trigger] wins(input, tombs, i) ==> out.contains(input[i]),
        forall|k1: int, k2: int| 0 <= k1 < k2 < out.len() ==> !(out[k1].key() == out[k2].key()),
    ensures
        visible_rows(out, tombs) == visible_rows(input, tombs),
{
    assert forall|r: Row| visible_rows(out, tombs).contains(r) implies visible_rows(
        input,
        tombs,
    ).contains(r) by {
        let k = choose|k: int| #[trigger] wins(out, tombs, k) && out[k] == r;
        assert(winner_source(input, tombs, input.len() as int, out[k]));
        let i = choose|i: int|
            0 <= i < input.len() && #[trigger] wins(input, tombs, i) && input[i] == out[k];
        assert(wins(input, tombs, i) && input[i] == r);
    }
    assert forall|r: Row| visible_rows(input, tombs).contains(r) implies visible_rows(
        out,
        tombs,
    ).contains(r) by {
        let i = choose|i: int| #[trigger] wins(input, tombs, i) && input[i] == r;
        assert(out.contains(input[i]));
        let k = choose|k: int| 0 <= k < out.len() && out[k] == r;
        assert forall|k2: int|
            0 <= k2 < out.len() && k2 != k && #[trigger] out[k2].key() == out[k].key() implies (
        out[k2].seq < out[k].seq || (out[k2].seq == out[k].seq && k2 < k)) by {
            if k2 < k {
                assert(!(out[k2].key() == out[k].key()));
            } else {
                assert(!(out[k].key() == out[k2].key()));
            }
        }
        assert(!spec_tombstoned(tombs, out[k]));
        assert(wins(out, tombs, k));
    }
    assert(visible_rows(out, tombs) =~= visible_rows(input, tombs));
}

/// The concatenation of a sequence of row sequences.
pub open spec fn flatten_rows(parts: Seq<Seq<Row>>) -> Seq<Row>
    decreases parts.len(),
{
    if parts.len() == 0 {
        Seq::empty()
    } else {
        flatten_rows(parts.drop_last()) + parts.last()
    }
}

/// Flattening one more row sequence appends it.
pub proof fn lemma_flatten_rows_push(parts: Seq<Seq<Row>>, last: Seq<Row>)
    ensures
        flatten_rows(parts.push(last)) == flatten_rows(parts) + last,
{
    assert(parts.push(last).drop_last() =~= parts);
}

} // verus!
