//! Write-ahead log of one partition: an ordered durable record of every
//! write batch, tagged with monotonically increasing sequence numbers.
//!
//! Records at or below the last checkpointed sequence number are safe to
//! discard: replaying from any later point is unaffected by truncation.

use vstd::prelude::*;

use crate::types::{copy_vec, Point};

verus! {

/// One durable WAL record: a write batch and its sequence number.
pub struct WalRecord {
    pub seq: u64,
    pub points: Vec<Point>,
}

/// Model of a WAL record.
#[verifier::ext_equal]
pub struct WalRecordV {
    pub seq: u64,
    pub points: Seq<Point>,
}

impl WalRecord {
    /// Model of the record.
    pub open spec fn view_rec(self) -> WalRecordV {
        WalRecordV { seq: self.seq, points: self.points@ }
    }
}

/// Models of a sequence of records, elementwise.
pub open spec fn view_records(rs: Seq<WalRecord>) -> Seq<WalRecordV> {
    Seq::new(rs.len(), |i: int| rs[i].view_rec())
}

/// The predicate selecting records to keep when replaying from (or
/// truncating up to) `from_seq`.
pub open spec fn after_seq(from_seq: u64) -> spec_fn(WalRecordV) -> bool {
    |rv: WalRecordV| rv.seq > from_seq
}

/// Whether record sequence numbers are strictly increasing.
pub open spec fn records_increasing(rs: Seq<WalRecordV>) -> bool {
    forall|i: int, j: int| 0 <= i < j < rs.len() ==> rs[i].seq < rs[j].seq
}

/// Append-only write-ahead log of one partition.
pub struct Wal {
    pub records: Vec<WalRecord>,
}

impl Wal {
    /// The durable log contents, in append order.
    pub open spec fn log(self) -> Seq<WalRecordV> {
        view_records(self.records@)
    }

    /// An empty log.
    pub fn new() -> (r: Wal)
        ensures
            r.log() == Seq::<WalRecordV>::empty(),
    {
        let w = Wal { records: Vec::new() };
        proof {
            assert(w.log() =~= Seq::<WalRecordV>::empty());
        }
        w
    }

    /// Appends a batch under its sequence number. The record is part of
    /// the durable log when the call returns.
    pub fn append(&mut self, points: &Vec<Point>, seq: u64)
        ensures
            final(self).log() == old(self).log().push(WalRecordV { seq, points: points@ }),
    {
        let copy = copy_vec(points);
        self.records.push(WalRecord { seq, points: copy });
        proof {
            assert(self.log() =~= old(self).log().push(WalRecordV { seq, points: points@ }));
        }
    }

    /// The records to replay during recovery: exactly those with sequence
    /// numbers above `from_seq`, in log order.
    pub fn replay(&self, from_seq: u64) -> (r: Vec<WalRecord>)
        ensures
            view_records(r@) == self.log().filter(after_seq(from_seq)),
    {
        proof {
            reveal(Seq::filter);
        }
        let mut out: Vec<WalRecord> = Vec::new();
        let mut i: usize = 0;
        proof {
            assert(self.log().subrange(0, 0) =~= Seq::<WalRecordV>::empty());
            assert(view_records(out@) =~= self.log().subrange(0, 0).filter(after_seq(from_seq)));
        }
        while i < self.records.len()
            invariant
                0 <= i <= self.records@.len(),
                view_records(out@) == self.log().subrange(0, i as int).filter(after_seq(from_seq)),
            decreases self.records@.len() - i,
        {
            let ghost pre = self.log().subrange(0, i as int);
            let ghost cur = self.log()[i as int];
            proof {
                reveal(Seq::filter);
                assert(self.log().subrange(0, i + 1) =~= pre.push(cur));
                assert(pre.push(cur).drop_last() =~= pre);
                assert(pre.push(cur).last() == cur);
            }
            let keep = self.records[i].seq > from_seq;
            if keep {
                let ghost out0 = out@;
                let rec = &self.records[i];
                let copy = WalRecord { seq: rec.seq, points: copy_vec(&rec.points) };
                out.push(copy);
                proof {
                    assert(view_records(out@) =~= view_records(out0).push(cur));
                }
            }
            i += 1;
        }
        proof {
            assert(self.log().subrange(0, self.records@.len() as int) =~= self.log());
        }
        out
    }

    /// Discards records at or below `up_to_seq`; the remaining records
    /// keep their order.
    pub fn truncate(&mut self, up_to_seq: u64)
        ensures
            final(self).log() == old(self).log().filter(after_seq(up_to_seq)),
    {
        let kept = self.replay(up_to_seq);
        self.records = kept;
    }
}

/// Discarding WAL records at or below a checkpoint never changes what
/// replay from that checkpoint, or from any later point, yields.
pub proof fn lemma_truncate_preserves_replay(lg: Seq<WalRecordV>, cut: u64, from: u64)
    requires
        cut <= from,
    ensures
        lg.filter(after_seq(cut)).filter(after_seq(from)) == lg.filter(after_seq(from)),
    decreases lg.len(),
{
    reveal(Seq::filter);
    if lg.len() == 0 {
        assert(lg.filter(after_seq(cut)) == lg);
    } else {
        let prefix = lg.drop_last();
        let last = lg.last();
        lemma_truncate_preserves_replay(prefix, cut, from);
        if after_seq(cut)(last) {
            assert(lg.filter(after_seq(cut)) == prefix.filter(after_seq(cut)).push(last));
            assert(prefix.filter(after_seq(cut)).push(last).drop_last() =~= prefix.filter(
                after_seq(cut),
            ));
        } else {
            assert(!after_seq(from)(last));
        }
    }
}

} // verus!
