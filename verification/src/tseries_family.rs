//! The time-series family controller: the versioned mutable state of one
//! partition. It owns the partition's WAL, mutable buffer, immutable file
//! list and tombstones, serializes writes through one monotonically
//! increasing sequence, and hands out immutable snapshots (SuperVersions)
//! to readers.

use vstd::prelude::*;

use crate::memcache::MutableBuffer;
use crate::tsm::ColumnFile;
use crate::types::{rows_of_points, Point, Row, Tombstone};
use crate::wal::{records_increasing, Wal, WalRecordV};

verus! {

/// The buffer contents after replaying one batch: already-applied
/// sequence numbers are skipped, later ones append their rows.
pub open spec fn wfw_rows(buf: Seq<Row>, last_seq: u64, points: Seq<Point>, seq: u64) -> Seq<Row> {
    if seq <= last_seq {
        buf
    } else {
        buf + rows_of_points(points, seq)
    }
}

/// The sequence watermark after replaying one batch.
pub open spec fn wfw_seq(last_seq: u64, seq: u64) -> u64 {
    if seq <= last_seq {
        last_seq
    } else {
        seq
    }
}

/// Replay is idempotent: applying the same batch under the same sequence
/// number twice leaves exactly the state of applying it once.
pub proof fn lemma_write_from_wal_idempotent(
    buf: Seq<Row>,
    last_seq: u64,
    points: Seq<Point>,
    seq: u64,
)
    ensures
        wfw_rows(wfw_rows(buf, last_seq, points, seq), wfw_seq(last_seq, seq), points, seq)
            == wfw_rows(buf, last_seq, points, seq),
        wfw_seq(wfw_seq(last_seq, seq), seq) == wfw_seq(last_seq, seq),
{
}

/// Folding a sequence of WAL records into buffer contents and watermark.
pub open spec fn replay_fold(buf: Seq<Row>, last_seq: u64, records: Seq<WalRecordV>) -> (
    Seq<Row>,
    u64,
)
    decreases records.len(),
{
    if records.len() == 0 {
        (buf, last_seq)
    } else {
        let r0 = records[0];
        replay_fold(
            wfw_rows(buf, last_seq, r0.points, r0.seq),
            wfw_seq(last_seq, r0.seq),
            records.drop_first(),
        )
    }
}

/// Replaying one more record applies it to the folded state.
pub proof fn lemma_replay_fold_push(
    buf: Seq<Row>,
    last_seq: u64,
    records: Seq<WalRecordV>,
    rec: WalRecordV,
)
    ensures
        replay_fold(buf, last_seq, records.push(rec)).0 == wfw_rows(
            replay_fold(buf, last_seq, records).0,
            replay_fold(buf, last_seq, records).1,
            rec.points,
            rec.seq,
        ),
        replay_fold(buf, last_seq, records.push(rec)).1 == wfw_seq(
            replay_fold(buf, last_seq, records).1,
            rec.seq,
        ),
    decreases records.len(),
{
    reveal_with_fuel(replay_fold, 3);
    if records.len() == 0 {
        assert(records.push(rec)[0] == rec);
        assert(records.push(rec).drop_first() =~= Seq::<WalRecordV>::empty());
    } else {
        assert(records.push(rec)[0] == records[0]);
        assert(records.push(rec).drop_first() =~= records.drop_first().push(rec));
        let r0 = records[0];
        lemma_replay_fold_push(
            wfw_rows(buf, last_seq, r0.points, r0.seq),
            wfw_seq(last_seq, r0.seq),
            records.drop_first(),
            rec,
        );
    }
}

/// The rows a sequence of WAL records carries, in order.
pub open spec fn wal_rows(records: Seq<WalRecordV>) -> Seq<Row>
    decreases records.len(),
{
    if records.len() == 0 {
        Seq::empty()
    } else {
        rows_of_points(records[0].points, records[0].seq) + wal_rows(records.drop_first())
    }
}

/// Replaying the log into an empty buffer reproduces exactly the rows of
/// the acknowledged records: none is lost, none appears twice. The
/// watermark ends at the last record's sequence number.
pub proof fn lemma_replay_reproduces(records: Seq<WalRecordV>, base: u64)
    requires
        records_increasing(records),
        forall|i: int| 0 <= i < records.len() ==> #[trigger] records[i].seq > base,
    ensures
        replay_fold(Seq::<Row>::empty(), base, records).0 == wal_rows(records),
        replay_fold(Seq::<Row>::empty(), base, records).1 == (if records.len() == 0 {
            base
        } else {
            records.last().seq
        }),
    decreases records.len(),
{
    if records.len() > 0 {
        let r0 = records[0];
        let rest = records.drop_first();
        assert(r0.seq > base);
        assert(forall|i: int| 0 <= i < rest.len() ==> #[trigger] rest[i].seq > r0.seq);
        lemma_replay_reproduces_from(rest, r0.seq, rows_of_points(r0.points, r0.seq));
        if rest.len() > 0 {
            assert(records.last() == rest.last());
        }
    }
}

/// Helper induction: replaying increasing records onto a buffer appends
/// exactly their rows.
pub proof fn lemma_replay_reproduces_from(records: Seq<WalRecordV>, base: u64, buf: Seq<Row>)
    requires
        records_increasing(records),
        forall|i: int| 0 <= i < records.len() ==> #[trigger] records[i].seq > base,
    ensures
        replay_fold(buf, base, records).0 == buf + wal_rows(records),
        replay_fold(buf, base, records).1 == (if records.len() == 0 {
            base
        } else {
            records.last().seq
        }),
    decreases records.len(),
{
    if records.len() == 0 {
        assert(buf + wal_rows(records) =~= buf);
    } else {
        let r0 = records[0];
        let rest = records.drop_first();
        assert(forall|i: int| 0 <= i < rest.len() ==> #[trigger] rest[i].seq > r0.seq);
        lemma_replay_reproduces_from(rest, r0.seq, buf + rows_of_points(r0.points, r0.seq));
        assert((buf + rows_of_points(r0.points, r0.seq)) + wal_rows(rest) =~= buf + (rows_of_points(
            r0.points,
            r0.seq,
        ) + wal_rows(rest)));
        if rest.len() > 0 {
            assert(records.last() == rest.last());
        }
    }
}

/// One partition's controller state.
pub struct TsFamily {
    pub id: u32,
    pub tenant: String,
    pub database: String,
    pub last_seq: u64,
    pub buffer: MutableBuffer,
    pub files: Vec<ColumnFile>,
    pub tombstones: Vec<Tombstone>,
    pub wal: Wal,
}

impl TsFamily {
    /// A fresh family for a newly opened partition.
    pub fn new(id: u32, tenant: String, database: String, buffer_threshold: usize) -> (r: TsFamily)
        ensures
            r.id == id,
            r.tenant@ == tenant@,
            r.database@ == database@,
            r.last_seq == 0,
            r.buffer.contents() == Seq::<Row>::empty(),
            r.buffer.max_size == buffer_threshold,
            r.files@ == Seq::<ColumnFile>::empty(),
            r.tombstones@ == Seq::<Tombstone>::empty(),
            r.wal.log() == Seq::<WalRecordV>::empty(),
    {
        let f = TsFamily {
            id,
            tenant,
            database,
            last_seq: 0,
            buffer: MutableBuffer::new(buffer_threshold),
            files: Vec::new(),
            tombstones: Vec::new(),
            wal: Wal::new(),
        };
        proof {
            assert(f.files@ =~= Seq::<ColumnFile>::empty());
            assert(f.tombstones@ =~= Seq::<Tombstone>::empty());
        }
        f
    }

    /// A committed write: appends the batch to the WAL (durability),
    /// inserts its rows into the buffer (visibility), and advances the
    /// sequence. Returns the assigned sequence number.
    pub fn write(&mut self, points: &Vec<Point>) -> (seq: u64)
        requires
            old(self).last_seq < u64::MAX,
        ensures
            seq == old(self).last_seq + 1,
            final(self).last_seq == seq,
            final(self).wal.log() == old(self).wal.log().push(
                WalRecordV { seq, points: points@ },
            ),
            final(self).buffer.contents() == old(self).buffer.contents() + rows_of_points(
                points@,
                seq,
            ),
            final(self).buffer.max_size == old(self).buffer.max_size,
            final(self).id == old(self).id,
            final(self).tenant == old(self).tenant,
            final(self).database == old(self).database,
            final(self).files == old(self).files,
            final(self).tombstones == old(self).tombstones,
    {
        let seq = self.last_seq + 1;
        self.wal.append(points, seq);
        self.buffer.insert_batch(points, seq);
        self.last_seq = seq;
        seq
    }

    /// The recovery-path insert: skips re-logging to the WAL and is
    /// idempotent against replay of already-applied sequence numbers.
    pub fn write_from_wal(&mut self, points: &Vec<Point>, seq: u64)
        ensures
            final(self).buffer.contents() == wfw_rows(
                old(self).buffer.contents(),
                old(self).last_seq,
                points@,
                seq,
            ),
            final(self).last_seq == wfw_seq(old(self).last_seq, seq),
            final(self).buffer.max_size == old(self).buffer.max_size,
            final(self).wal == old(self).wal,
            final(self).id == old(self).id,
            final(self).tenant == old(self).tenant,
            final(self).database == old(self).database,
            final(self).files == old(self).files,
            final(self).tombstones == old(self).tombstones,
    {
        if seq <= self.last_seq {
            return ;
        }
        self.buffer.insert_batch(points, seq);
        self.last_seq = seq;
    }

    /// Replays a sequence of WAL records in order through
    /// [`TsFamily::write_from_wal`].
    pub fn replay_wal(&mut self, records: &Vec<crate::wal::WalRecord>)
        ensures
            final(self).buffer.contents() == replay_fold(
                old(self).buffer.contents(),
                old(self).last_seq,
                crate::wal::view_records(records@),
            ).0,
            final(self).last_seq == replay_fold(
                old(self).buffer.contents(),
                old(self).last_seq,
                crate::wal::view_records(records@),
            ).1,
            final(self).buffer.max_size == old(self).buffer.max_size,
            final(self).wal == old(self).wal,
            final(self).id == old(self).id,
            final(self).tenant == old(self).tenant,
            final(self).database == old(self).database,
            final(self).files == old(self).files,
            final(self).tombstones == old(self).tombstones,
    {
        let ghost all = crate::wal::view_records(records@);
        let mut i: usize = 0;
        proof {
            assert(all.subrange(0, 0) =~= Seq::<WalRecordV>::empty());
        }
        while i < records.len()
            invariant
                0 <= i <= records@.len(),
                all == crate::wal::view_records(records@),
                self.buffer.contents() == replay_fold(
                    old(self).buffer.contents(),
                    old(self).last_seq,
                    all.subrange(0, i as int),
                ).0,
                self.last_seq == replay_fold(
                    old(self).buffer.contents(),
                    old(self).last_seq,
                    all.subrange(0, i as int),
                ).1,
                self.buffer.max_size == old(self).buffer.max_size,
                self.wal == old(self).wal,
                self.id == old(self).id,
                self.tenant == old(self).tenant,
                self.database == old(self).database,
                self.files == old(self).files,
                self.tombstones == old(self).tombstones,
            decreases records@.len() - i,
        {
            let rec = &records[i];
            self.write_from_wal(&rec.points, rec.seq);
            proof {
                assert(all.subrange(0, i + 1) =~= all.subrange(0, i as int).push(all[i as int]));
                lemma_replay_fold_push(
                    old(self).buffer.contents(),
                    old(self).last_seq,
                    all.subrange(0, i as int),
                    all[i as int],
                );
                assert(all[i as int].points == records@[i as int].points@);
                assert(all[i as int].seq == records@[i as int].seq);
            }
            i += 1;
        }
        proof {
            assert(all.subrange(0, records@.len() as int) =~= all);
        }
    }
}

} // verus!
