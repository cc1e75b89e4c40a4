//! The engine façade: dispatches tenant/database/table/partition
//! operations to the addressed partition's controller, maintains the
//! table schemas and the manifest, and hands immutable SuperVersions to
//! the read path. Failures are isolated per partition: an error in one
//! partition never blocks the others.

use vstd::prelude::*;

use crate::compaction::flatten_rows;
use crate::error::Error;
use crate::summary::{
    empty_state, spec_replay, view_edits, FileMeta, VersionEdit, VersionEditV,
    VersionState,
};
use crate::tseries_family::{wfw_rows, wfw_seq, TsFamily};
use crate::tsm::ColumnFile;
use crate::types::{
    copy_vec, del_covers, lemma_tombstoned_add, make_tombstones, rows_of_points, spec_tombstoned,
    Point, Row, SeriesKey, TableSchema, Tag, TimeRange, Tombstone,
};
use crate::wal::WalRecordV;
use crate::{spec_tenant_of, WritePointsRequest};

verus! {

/// Timestamp precision a write batch was expressed in. Timestamps are
/// normalized by the ingestion layer before they reach the engine; the
/// engine records points as handed to it.
#[derive(Clone, Copy, PartialEq, Eq, Structural, Debug)]
pub enum Precision {
    Ms,
    Us,
    Ns,
}

/// Configuration of the storage layer.
#[derive(Clone, Copy, PartialEq, Eq, Structural, Debug)]
pub struct StorageOptions {
    pub wal_segment_size: u64,
    pub buffer_threshold: usize,
    pub compaction_file_limit: usize,
}

/// One table known to the engine, with its schema.
pub struct TableDef {
    pub tenant: String,
    pub database: String,
    pub table: String,
    pub schema: TableSchema,
}

/// Whether a table definition addresses the given names.
pub open spec fn table_matches(
    td: TableDef,
    tenant: Seq<char>,
    database: Seq<char>,
    table: Seq<char>,
) -> bool {
    td.tenant@ == tenant && td.database@ == database && td.table@ == table
}

/// Whether every point of a batch addresses a column of the schema.
pub open spec fn batch_in_schema(points: Seq<Point>, schema: TableSchema) -> bool {
    forall|i: int|
        0 <= i < points.len() ==> schema.spec_has_column(#[trigger] points[i].column_id)
}

/// Whether some family of the sequence owns the partition.
pub open spec fn has_family(families: Seq<TsFamily>, id: u32) -> bool {
    exists|i: int| 0 <= i < families.len() && #[trigger] families[i].id == id
}

/// The position of the partition's family. Meaningful when
/// [`has_family`] holds and ids are unique.
pub open spec fn fam_idx(families: Seq<TsFamily>, id: u32) -> int {
    choose|i: int| 0 <= i < families.len() && #[trigger] families[i].id == id
}

/// Whether the engine knows a table under the given names.
pub open spec fn has_table(
    tables: Seq<TableDef>,
    tenant: Seq<char>,
    database: Seq<char>,
    table: Seq<char>,
) -> bool {
    exists|i: int| 0 <= i < tables.len() && table_matches(#[trigger] tables[i], tenant, database, table)
}

/// The position of the addressed table. Meaningful when [`has_table`]
/// holds and table names are unique.
pub open spec fn tbl_idx(
    tables: Seq<TableDef>,
    tenant: Seq<char>,
    database: Seq<char>,
    table: Seq<char>,
) -> int {
    choose|i: int| 0 <= i < tables.len() && table_matches(#[trigger] tables[i], tenant, database, table)
}

/// Whether table names (tenant, database, table) are pairwise distinct.
pub open spec fn tables_unique(tables: Seq<TableDef>) -> bool {
    forall|i: int, j: int|
        0 <= i < j < tables.len() ==> !(#[trigger] tables[i].tenant@ == #[trigger] tables[j].tenant@
            && tables[i].database@ == tables[j].database@ && tables[i].table@
            == tables[j].table@)
}

/// Whether family ids are pairwise distinct.
pub open spec fn families_unique(families: Seq<TsFamily>) -> bool {
    forall|i: int, j: int|
        0 <= i < j < families.len() ==> #[trigger] families[i].id != #[trigger] families[j].id
}

/// Whether partition `id` is open and owned by the named tenant and
/// database.
pub open spec fn addressed_family(
    s: TsKv,
    id: u32,
    tenant: Seq<char>,
    database: Seq<char>,
) -> bool {
    has_family(s.families@, id) && s.families@[fam_idx(s.families@, id)].tenant@ == tenant
        && s.families@[fam_idx(s.families@, id)].database@ == database
}

/// Whether a write to partition `id` addresses an open partition owned
/// by the request's tenant.
pub open spec fn write_addressed(s: TsKv, id: u32, tenant: Seq<char>) -> bool {
    has_family(s.families@, id) && s.families@[fam_idx(s.families@, id)].tenant@ == tenant
}

/// Whether, in addition, the engine knows the addressed table in the
/// partition's database.
pub open spec fn write_table_found(s: TsKv, id: u32, tenant: Seq<char>, table: Seq<char>) -> bool {
    write_addressed(s, id, tenant) && has_table(
        s.tables@,
        tenant,
        s.families@[fam_idx(s.families@, id)].database@,
        table,
    )
}

/// Whether, in addition, every point of the batch addresses a column of
/// that table's schema.
pub open spec fn write_schema_ok(
    s: TsKv,
    id: u32,
    tenant: Seq<char>,
    table: Seq<char>,
    points: Seq<Point>,
) -> bool {
    write_table_found(s, id, tenant, table) && batch_in_schema(
        points,
        s.tables@[tbl_idx(
            s.tables@,
            tenant,
            s.families@[fam_idx(s.families@, id)].database@,
            table,
        )].schema,
    )
}

/// The storage engine.
pub struct TsKv {
    pub families: Vec<TsFamily>,
    pub tables: Vec<TableDef>,
    pub manifest: Vec<VersionEdit>,
    pub series: Vec<SeriesEntry>,
    pub next_file_id: u64,
    pub schema_version: u64,
    pub options: StorageOptions,
    pub closed: bool,
}

impl TsKv {
    /// Internal invariant: partition ids and table names are pairwise
    /// distinct.
    pub open spec fn wf(self) -> bool {
        families_unique(self.families@) && tables_unique(self.tables@)
    }

    /// A fresh engine with no partitions and no tables.
    pub fn new(options: StorageOptions) -> (r: TsKv)
        ensures
            r.wf(),
            r.families@.len() == 0,
            r.tables@.len() == 0,
            r.manifest@.len() == 0,
            r.series@.len() == 0,
            r.next_file_id == 1,
            r.options == options,
            !r.closed,
    {
        TsKv {
            families: Vec::new(),
            tables: Vec::new(),
            manifest: Vec::new(),
            series: Vec::new(),
            next_file_id: 1,
            schema_version: 0,
            options,
            closed: false,
        }
    }

    /// Whether the background scheduler should compact the partition:
    /// its immutable file count has reached the configured limit. The
    /// forced compaction it then runs is total: it merges every file of
    /// the partition.
    pub fn needs_compaction(&self, vnode_id: u32) -> (r: bool)
        requires
            self.wf(),
        ensures
            r == (has_family(self.families@, vnode_id) && self.families@[fam_idx(
                self.families@,
                vnode_id,
            )].files@.len() >= self.options.compaction_file_limit),
    {
        match self.find_family(vnode_id) {
            Some(i) => {
                proof {
                    lemma_fam_idx_agrees(self.families@, vnode_id, i as int);
                }
                self.families[i].files.len() >= self.options.compaction_file_limit
            },
            None => false,
        }
    }

    /// Whether the partition's WAL has reached the configured segment
    /// size (counted in records in this model), so the controller should
    /// flush and truncate it at the next checkpoint.
    pub fn wal_rollover_due(&self, vnode_id: u32) -> (r: bool)
        requires
            self.wf(),
        ensures
            r == (has_family(self.families@, vnode_id) && self.families@[fam_idx(
                self.families@,
                vnode_id,
            )].wal.log().len() >= self.options.wal_segment_size),
    {
        match self.find_family(vnode_id) {
            Some(i) => {
                proof {
                    lemma_fam_idx_agrees(self.families@, vnode_id, i as int);
                }
                self.families[i].wal.records.len() as u64 >= self.options.wal_segment_size
            },
            None => false,
        }
    }

    /// The engine's storage configuration.
    pub fn get_storage_options(&self) -> (r: StorageOptions)
        ensures
            r == self.options,
    {
        self.options
    }

    /// The position of the partition's family, if it is open.
    fn find_family(&self, id: u32) -> (r: Option<usize>)
        ensures
            match r {
                Some(i) => i < self.families@.len() && self.families@[i as int].id == id,
                None => !has_family(self.families@, id),
            },
    {
        let mut i: usize = 0;
        while i < self.families.len()
            invariant
                0 <= i <= self.families@.len(),
                forall|j: int| 0 <= j < i ==> #[trigger] self.families@[j].id != id,
            decreases self.families@.len() - i,
        {
            if self.families[i].id == id {
                return Some(i);
            }
            i += 1;
        }
        None
    }

    /// The position of the addressed table, if the engine knows it.
    fn find_table(&self, tenant: &String, database: &String, table: &String) -> (r: Option<usize>)
        ensures
            match r {
                Some(i) => i < self.tables@.len() && table_matches(
                    self.tables@[i as int],
                    tenant@,
                    database@,
                    table@,
                ),
                None => forall|j: int|
                    0 <= j < self.tables@.len() ==> !table_matches(
                        #[trigger] self.tables@[j],
                        tenant@,
                        database@,
                        table@,
                    ),
            },
    {
        let mut i: usize = 0;
        while i < self.tables.len()
            invariant
                0 <= i <= self.tables@.len(),
                forall|j: int|
                    0 <= j < i ==> !table_matches(
                        #[trigger] self.tables@[j],
                        tenant@,
                        database@,
                        table@,
                    ),
            decreases self.tables@.len() - i,
        {
            let td = &self.tables[i];
            if td.tenant == *tenant && td.database == *database && td.table == *table {
                return Some(i);
            }
            i += 1;
        }
        None
    }

    /// Opens a partition: creates its family when none exists yet. A
    /// second open of the same partition is a no-op.
    pub fn open_tsfamily(&mut self, tenant: &String, database: &String, id: u32)
        requires
            old(self).wf(),
        ensures
            final(self).wf(),
            has_family(final(self).families@, id),
            has_family(old(self).families@, id) ==> *final(self) == *old(self),
            !has_family(old(self).families@, id) ==> final(self).families@.len() == old(self).families@.len() + 1 && final(self).families@.subrange(
                0,
                old(self).families@.len() as int,
            ) == old(self).families@ && final(self).families@.last().id == id && final(self).families@.last().tenant@ == tenant@ && final(self).families@.last().database@
                == database@ && final(self).families@.last().last_seq == 0 && final(self).families@.last().buffer.contents().len() == 0 && final(self).families@.last().files@.len() == 0 && final(self).tables == old(self).tables && final(self).manifest == old(self).manifest,
    {
        match self.find_family(id) {
            Some(_) => {
                proof {
                    assert(has_family(self.families@, id));
                }
            },
            None => {
                let fam = TsFamily::new(
                    id,
                    tenant.clone(),
                    database.clone(),
                    self.options.buffer_threshold,
                );
                self.families.push(fam);
                proof {
                    assert(final(self).families@.last().id == id);
                    assert(has_family(self.families@, id));
                    assert(final(self).families@.subrange(0, old(self).families@.len() as int)
                        =~= old(self).families@);
                    assert forall|i: int, j: int|
                        0 <= i < j < self.families@.len() implies #[trigger] self.families@[i].id
                        != #[trigger] self.families@[j].id by {
                        if j == self.families@.len() - 1 {
                            assert(self.families@[i] == old(self).families@[i]);
                            assert(!has_family(old(self).families@, id));
                        }
                    }
                }
            },
        }
    }

    /// Registers a table and its schema. Re-creating a known table
    /// replaces its schema.
    pub fn create_table(
        &mut self,
        tenant: &String,
        database: &String,
        table: &String,
        schema: TableSchema,
    )
        requires
            old(self).wf(),
        ensures
            final(self).wf(),
            final(self).families == old(self).families,
            final(self).manifest == old(self).manifest,
            exists|i: int|
                0 <= i < final(self).tables@.len() && table_matches(
                    #[trigger] final(self).tables@[i],
                    tenant@,
                    database@,
                    table@,
                ) && final(self).tables@[i].schema == schema,
    {
        match self.find_table(tenant, database, table) {
            Some(i) => {
                let td = TableDef {
                    tenant: tenant.clone(),
                    database: database.clone(),
                    table: table.clone(),
                    schema,
                };
                self.tables.remove(i);
                self.tables.insert(i, td);
                proof {
                    assert(table_matches(self.tables@[i as int], tenant@, database@, table@));
                    assert(self.tables@[i as int].schema == schema);
                }
            },
            None => {
                let td = TableDef {
                    tenant: tenant.clone(),
                    database: database.clone(),
                    table: table.clone(),
                    schema,
                };
                self.tables.push(td);
                proof {
                    let i = self.tables@.len() - 1;
                    assert(table_matches(self.tables@[i], tenant@, database@, table@));
                }
            },
        }
    }

    /// A committed write: validates the addressed tenant, table and
    /// schema, appends the batch to the addressed partition's WAL,
    /// inserts it into the mutable buffer and returns the assigned
    /// sequence number once durable — not once flushed. Success is owed
    /// whenever the addressed partition and table exist, the batch fits
    /// the schema, and the sequence space is not exhausted.
    pub fn write(&mut self, id: u32, precision: Precision, req: &WritePointsRequest) -> (r: Result<
        u64,
        Error,
    >)
        requires
            old(self).wf(),
        ensures
            final(self).wf(),
            ({
                let fams = old(self).families@;
                let fi = fam_idx(fams, id);
                let tenant = spec_tenant_of(*req);
                match r {
                    Ok(seq) => {
                        let f0 = fams[fi];
                        let f1 = final(self).families@[fi];
                        &&& write_schema_ok(*old(self), id, tenant, req.table@, req.points@)
                        &&& f0.last_seq < u64::MAX
                        &&& seq == f0.last_seq + 1
                        &&& f1.last_seq == seq
                        &&& f1.wal.log() == f0.wal.log().push(
                            WalRecordV { seq, points: req.points@ },
                        )
                        &&& f1.buffer.contents() == f0.buffer.contents() + rows_of_points(
                            req.points@,
                            seq,
                        )
                        &&& f1.id == f0.id
                        &&& f1.tenant == f0.tenant
                        &&& f1.database == f0.database
                        &&& f1.files == f0.files
                        &&& f1.tombstones == f0.tombstones
                        &&& final(self).families@.len() == fams.len()
                        &&& forall|j: int|
                            0 <= j < fams.len() && j != fi ==> final(self).families@[j] == fams[j]
                        &&& final(self).tables == old(self).tables
                        &&& final(self).manifest == old(self).manifest
                        &&& final(self).series == old(self).series
                        &&& final(self).next_file_id == old(self).next_file_id
                        &&& final(self).schema_version == old(self).schema_version
                        &&& final(self).options == old(self).options
                        &&& final(self).closed == old(self).closed
                    },
                    Err(Error::NotFound) => *final(self) == *old(self) && !write_table_found(
                        *old(self),
                        id,
                        tenant,
                        req.table@,
                    ),
                    Err(Error::SchemaMismatch) => *final(self) == *old(self) && write_table_found(
                        *old(self),
                        id,
                        tenant,
                        req.table@,
                    ) && !write_schema_ok(*old(self), id, tenant, req.table@, req.points@),
                    Err(Error::DurabilityError) => *final(self) == *old(self) && write_schema_ok(
                        *old(self),
                        id,
                        tenant,
                        req.table@,
                        req.points@,
                    ) && fams[fi].last_seq == u64::MAX,
                    _ => false,
                }
            }),
    {
        let fi = match self.find_family(id) {
            Some(i) => i,
            None => {
                return Err(Error::NotFound);
            },
        };
        proof {
            lemma_fam_idx_agrees(self.families@, id, fi as int);
        }
        let tenant = crate::tenant_name_from_request(req);
        if !(self.families[fi].tenant == tenant) {
            return Err(Error::NotFound);
        }
        let database = self.families[fi].database.clone();
        let ti = match self.find_table(&tenant, &database, &req.table) {
            Some(ti) => ti,
            None => {
                return Err(Error::NotFound);
            },
        };
        proof {
            lemma_tbl_idx_agrees(
                self.tables@,
                tenant@,
                self.families@[fi as int].database@,
                req.table@,
                ti as int,
            );
        }
        // validate every point against the table schema
        let schema = &self.tables[ti].schema;
        let mut p: usize = 0;
        while p < req.points.len()
            invariant
                0 <= p <= req.points@.len(),
                *self == *old(self),
                old(self).wf(),
                ti < self.tables@.len(),
                schema == &self.tables@[ti as int].schema,
                write_table_found(*old(self), id, spec_tenant_of(*req), req.table@),
                ti as int == tbl_idx(
                    old(self).tables@,
                    spec_tenant_of(*req),
                    old(self).families@[fam_idx(old(self).families@, id)].database@,
                    req.table@,
                ),
                forall|q: int|
                    0 <= q < p ==> self.tables@[ti as int].schema.spec_has_column(
                        #[trigger] req.points@[q].column_id,
                    ),
            decreases req.points@.len() - p,
        {
            if !schema.has_column(req.points[p].column_id) {
                proof {
                    assert(!batch_in_schema(req.points@, self.tables@[ti as int].schema));
                }
                return Err(Error::SchemaMismatch);
            }
            p += 1;
        }
        if self.families[fi].last_seq == u64::MAX {
            proof {
                lemma_fam_idx_agrees(self.families@, id, fi as int);
            }
            return Err(Error::DurabilityError);
        }
        let ghost fams0 = self.families@;
        let mut fam = self.families.remove(fi);
        let seq = fam.write(&req.points);
        self.families.insert(fi, fam);
        proof {
            lemma_fam_idx_agrees(fams0, id, fi as int);
            assert(self.families@.len() == fams0.len());
            assert forall|j: int| 0 <= j < fams0.len() && j != fi as int implies self.families@[j]
                == fams0[j] by {
                assert(self.families@[j] == fams0.remove(fi as int).insert(fi as int, fam)[j]);
            }
            assert(self.families@[fi as int] == fam);
            assert(families_unique(self.families@));
        }
        Ok(seq)
    }

    /// The recovery-path insert: applies a batch under its original
    /// sequence number without re-logging it, idempotently.
    pub fn write_from_wal(&mut self, id: u32, precision: Precision, req: &WritePointsRequest, seq: u64) -> (r: Result<(), Error>)
        requires
            old(self).wf(),
        ensures
            final(self).wf(),
            ({
                let fams = old(self).families@;
                let fi = fam_idx(fams, id);
                match r {
                    Ok(()) => {
                        let f0 = fams[fi];
                        let f1 = final(self).families@[fi];
                        &&& has_family(fams, id)
                        &&& f1.buffer.contents() == wfw_rows(
                            f0.buffer.contents(),
                            f0.last_seq,
                            req.points@,
                            seq,
                        )
                        &&& f1.last_seq == wfw_seq(f0.last_seq, seq)
                        &&& f1.id == f0.id
                        &&& f1.wal == f0.wal
                        &&& f1.files == f0.files
                        &&& f1.tombstones == f0.tombstones
                        &&& final(self).families@.len() == fams.len()
                        &&& forall|j: int|
                            0 <= j < fams.len() && j != fi ==> final(self).families@[j] == fams[j]
                        &&& final(self).tables == old(self).tables
                        &&& final(self).manifest == old(self).manifest
                        &&& final(self).series == old(self).series
                        &&& final(self).next_file_id == old(self).next_file_id
                        &&& final(self).schema_version == old(self).schema_version
                        &&& final(self).options == old(self).options
                        &&& final(self).closed == old(self).closed
                    },
                    Err(Error::NotFound) => *final(self) == *old(self) && !has_family(fams, id),
                    _ => false,
                }
            }),
    {
        let fi = match self.find_family(id) {
            Some(i) => i,
            None => {
                return Err(Error::NotFound);
            },
        };
        let ghost fams0 = self.families@;
        let mut fam = self.families.remove(fi);
        fam.write_from_wal(&req.points, seq);
        self.families.insert(fi, fam);
        proof {
            lemma_fam_idx_agrees(fams0, id, fi as int);
            assert forall|j: int| 0 <= j < fams0.len() && j != fi as int implies self.families@[j]
                == fams0[j] by {
                assert(self.families@[j] == fams0.remove(fi as int).insert(fi as int, fam)[j]);
            }
            assert(self.families@[fi as int] == fam);
            assert(families_unique(self.families@));
        }
        Ok(())
    }

    /// The current SuperVersion of the addressed partition: an immutable
    /// snapshot of its buffer, file set and tombstones for read-path use.
    /// It never blocks writers; the caller owns the returned value and
    /// concurrent flushes or compactions cannot touch it.
    pub fn get_db_version(&self, tenant: &String, database: &String, vnode_id: u32) -> (r: Result<
        Option<SuperVersion>,
        Error,
    >)
        requires
            self.wf(),
        ensures
            ({
                let fams = self.families@;
                let fi = fam_idx(fams, vnode_id);
                match r {
                    Ok(Some(sv)) => {
                        let f = fams[fi];
                        &&& has_family(fams, vnode_id)
                        &&& sv.vnode_id == vnode_id
                        &&& sv.buffer_snapshot@ == f.buffer.contents()
                        &&& files_like(sv.files@, f.files@)
                        &&& sv.tombstones@ == f.tombstones@
                    },
                    Ok(None) => !(has_family(fams, vnode_id) && fams[fi].tenant@ == tenant@
                        && fams[fi].database@ == database@),
                    _ => false,
                }
            }),
    {
        let fi = match self.find_family(vnode_id) {
            Some(i) => i,
            None => {
                return Ok(None);
            },
        };
        proof {
            lemma_fam_idx_agrees(self.families@, vnode_id, fi as int);
        }
        let fam = &self.families[fi];
        if !(fam.tenant == *tenant && fam.database == *database) {
            return Ok(None);
        }
        proof {
            assert(has_family(self.families@, vnode_id));
        }
        let mut files: Vec<ColumnFile> = Vec::new();
        let mut i: usize = 0;
        while i < fam.files.len()
            invariant
                0 <= i <= fam.files@.len(),
                files@.len() == i,
                forall|j: int| 0 <= j < i ==> file_like(#[trigger] files@[j], fam.files@[j]),
            decreases fam.files@.len() - i,
        {
            files.push(fam.files[i].duplicate());
            i += 1;
        }
        let sv = SuperVersion {
            vnode_id,
            buffer_snapshot: fam.buffer.snapshot(),
            files,
            tombstones: copy_vec(&fam.tombstones),
        };
        proof {
            lemma_fam_idx_agrees(self.families@, vnode_id, fi as int);
        }
        Ok(Some(sv))
    }

    /// Exports the addressed partition's state as one version edit that
    /// summarizes its whole manifest history: replaying that single edit
    /// from an empty state reproduces the partition's current file set
    /// and watermark. Used for partition migration and copy.
    pub fn get_vnode_summary(&self, tenant: &String, database: &String, vnode_id: u32) -> (r:
        Result<Option<VersionEdit>, Error>)
        requires
            self.wf(),
        ensures
            ({
                let fams = self.families@;
                let fi = fam_idx(fams, vnode_id);
                let replayed = spec_replay(
                    empty_state(),
                    view_edits(self.manifest@).filter(|e: VersionEditV| e.vnode_id == vnode_id),
                );
                match r {
                    Ok(Some(e)) => {
                        &&& has_family(fams, vnode_id)
                        &&& e.view_edit() == (VersionEditV {
                            vnode_id,
                            adds: replayed.files,
                            removes: Seq::empty(),
                            max_seq: replayed.last_seq,
                        })
                    },
                    Ok(None) => !(has_family(fams, vnode_id) && fams[fi].tenant@ == tenant@
                        && fams[fi].database@ == database@),
                    _ => false,
                }
            }),
    {
        let fi = match self.find_family(vnode_id) {
            Some(i) => i,
            None => {
                return Ok(None);
            },
        };
        proof {
            lemma_fam_idx_agrees(self.families@, vnode_id, fi as int);
        }
        if !(self.families[fi].tenant == *tenant && self.families[fi].database == *database) {
            return Ok(None);
        }
        proof {
            reveal(Seq::filter);
            assert(has_family(self.families@, vnode_id));
        }
        let ghost pred = |e: VersionEditV| e.vnode_id == vnode_id;
        let mut state = VersionState::new();
        let mut i: usize = 0;
        proof {
            assert(view_edits(self.manifest@.subrange(0, 0)) =~= Seq::<VersionEditV>::empty());
            assert(view_edits(self.manifest@.subrange(0, 0)).filter(pred) =~= Seq::<
                VersionEditV,
            >::empty());
        }
        while i < self.manifest.len()
            invariant
                0 <= i <= self.manifest@.len(),
                pred == (|e: VersionEditV| e.vnode_id == vnode_id),
                state.view_state() == spec_replay(
                    empty_state(),
                    view_edits(self.manifest@.subrange(0, i as int)).filter(pred),
                ),
            decreases self.manifest@.len() - i,
        {
            let ghost pre = view_edits(self.manifest@.subrange(0, i as int));
            let ghost cur = self.manifest@[i as int].view_edit();
            proof {
                reveal(Seq::filter);
                assert(view_edits(self.manifest@.subrange(0, i + 1)) =~= pre.push(cur));
                assert(pre.push(cur).drop_last() =~= pre);
                if pred(cur) {
                    crate::summary::lemma_replay_push(empty_state(), pre.filter(pred), cur);
                }
            }
            if self.manifest[i].vnode_id == vnode_id {
                let e = self.manifest[i].duplicate();
                state.apply_edit(&e);
            }
            i += 1;
        }
        proof {
            assert(self.manifest@.subrange(0, self.manifest@.len() as int) =~= self.manifest@);
        }
        let edit = VersionEdit {
            vnode_id,
            adds: state.files,
            removes: Vec::new(),
            max_seq: state.last_seq,
        };
        proof {
            assert(edit.removes@ =~= Seq::<u64>::empty());
        }
        Ok(Some(edit))
    }

    /// Imports a partition summary produced by [`TsKv::get_vnode_summary`]:
    /// validates it is causally after the partition's current state,
    /// records it in the manifest, and advances the watermark.
    pub fn apply_vnode_summary(
        &mut self,
        tenant: &String,
        database: &String,
        vnode_id: u32,
        summary: &VersionEdit,
    ) -> (r: Result<(), Error>)
        requires
            old(self).wf(),
        ensures
            final(self).wf(),
            ({
                let fams = old(self).families@;
                let fi = fam_idx(fams, vnode_id);
                match r {
                    Ok(()) => {
                        let f0 = fams[fi];
                        let f1 = final(self).families@[fi];
                        &&& has_family(fams, vnode_id)
                        &&& summary.max_seq >= f0.last_seq
                        &&& f1.last_seq == summary.max_seq
                        &&& f1.id == f0.id
                        &&& f1.buffer == f0.buffer
                        &&& f1.files == f0.files
                        &&& f1.wal == f0.wal
                        &&& f1.tombstones == f0.tombstones
                        &&& view_edits(final(self).manifest@) == view_edits(
                            old(self).manifest@,
                        ).push(
                            VersionEditV {
                                vnode_id,
                                adds: summary.adds@,
                                removes: summary.removes@,
                                max_seq: summary.max_seq,
                            },
                        )
                        &&& final(self).families@.len() == fams.len()
                        &&& forall|j: int|
                            0 <= j < fams.len() && j != fi ==> final(self).families@[j] == fams[j]
                        &&& final(self).tables == old(self).tables
                    },
                    Err(Error::NotFound) => *final(self) == *old(self) && !addressed_family(
                        *old(self),
                        vnode_id,
                        tenant@,
                        database@,
                    ),
                    Err(Error::CompactionFailed) => *final(self) == *old(self) && has_family(
                        fams,
                        vnode_id,
                    ) && summary.max_seq < fams[fi].last_seq,
                    _ => false,
                }
            }),
    {
        let fi = match self.find_family(vnode_id) {
            Some(i) => i,
            None => {
                return Err(Error::NotFound);
            },
        };
        proof {
            lemma_fam_idx_agrees(self.families@, vnode_id, fi as int);
        }
        if !(self.families[fi].tenant == *tenant && self.families[fi].database == *database) {
            return Err(Error::NotFound);
        }
        if summary.max_seq < self.families[fi].last_seq {
            return Err(Error::CompactionFailed);
        }
        let ghost fams0 = self.families@;
        let mut fam = self.families.remove(fi);
        fam.last_seq = summary.max_seq;
        self.families.insert(fi, fam);
        let edit = VersionEdit {
            vnode_id,
            adds: copy_vec(&summary.adds),
            removes: copy_vec(&summary.removes),
            max_seq: summary.max_seq,
        };
        self.manifest.push(edit);
        proof {
            assert forall|j: int| 0 <= j < fams0.len() && j != fi as int implies self.families@[j]
                == fams0[j] by {
                assert(self.families@[j] == fams0.remove(fi as int).insert(fi as int, fam)[j]);
            }
            assert(self.families@[fi as int] == fam);
            assert(families_unique(self.families@));
            assert(view_edits(self.manifest@) =~= view_edits(old(self).manifest@).push(
                edit.view_edit(),
            ));
        }
        Ok(())
    }

    /// Flushes the addressed partition so its state can be copied to
    /// another node.
    pub fn prepare_copy_vnode(&mut self, tenant: &String, database: &String, vnode_id: u32) -> (r:
        Result<(), Error>)
        requires
            old(self).wf(),
        ensures
            final(self).wf(),
            ({
                let fams = old(self).families@;
                let fi = fam_idx(fams, vnode_id);
                match r {
                    Ok(()) => addressed_family(*old(self), vnode_id, tenant@, database@) && final(self).families@[fi].buffer.contents().len() == 0,
                    Err(Error::NotFound) => *final(self) == *old(self) && !addressed_family(
                        *old(self),
                        vnode_id,
                        tenant@,
                        database@,
                    ),
                    Err(Error::IoError) => *final(self) == *old(self) && addressed_family(
                        *old(self),
                        vnode_id,
                        tenant@,
                        database@,
                    ) && fams[fi].buffer.contents().len() > 0 && old(self).next_file_id
                        == u64::MAX,
                    _ => false,
                }
            }),
    {
        self.flush_tsfamily(tenant, database, vnode_id)
    }

    /// Removes the addressed partition entirely: its family leaves the
    /// engine, in-flight readers keep the snapshots they hold, and new
    /// operations on the partition fail with `NotFound`.
    pub fn drop_vnode(&mut self, id: u32) -> (r: Result<(), Error>)
        requires
            old(self).wf(),
        ensures
            final(self).wf(),
            !has_family(final(self).families@, id),
            ({
                let fams = old(self).families@;
                let fi = fam_idx(fams, id);
                match r {
                    Ok(()) => {
                        &&& has_family(fams, id)
                        &&& final(self).families@ == fams.remove(fi)
                        &&& final(self).tables == old(self).tables
                        &&& final(self).manifest == old(self).manifest
                    },
                    Err(Error::NotFound) => *final(self) == *old(self) && !has_family(fams, id),
                    _ => false,
                }
            }),
    {
        let fi = match self.find_family(id) {
            Some(i) => i,
            None => {
                return Err(Error::NotFound);
            },
        };
        proof {
            lemma_fam_idx_agrees(self.families@, id, fi as int);
        }
        let ghost fams0 = self.families@;
        self.families.remove(fi);
        proof {
            assert forall|j: int| 0 <= j < self.families@.len() implies !(#[trigger] self.families@[j].id
                == id) by {
                if j < fi as int {
                    assert(self.families@[j] == fams0[j]);
                } else {
                    assert(self.families@[j] == fams0[j + 1]);
                }
            }
            assert forall|i2: int, j2: int|
                0 <= i2 < j2 < self.families@.len() implies #[trigger] self.families@[i2].id
                != #[trigger] self.families@[j2].id by {
                if j2 < fi as int {
                } else if i2 < fi as int {
                    assert(self.families@[i2] == fams0[i2]);
                    assert(self.families@[j2] == fams0[j2 + 1]);
                } else {
                    assert(self.families@[i2] == fams0[i2 + 1]);
                    assert(self.families@[j2] == fams0[j2 + 1]);
                }
            }
        }
        Ok(())
    }

    /// Removes the addressed partition after checking it belongs to the
    /// named tenant and database.
    pub fn remove_tsfamily(&mut self, tenant: &String, database: &String, id: u32) -> (r: Result<
        (),
        Error,
    >)
        requires
            old(self).wf(),
        ensures
            final(self).wf(),
            ({
                let fams = old(self).families@;
                let fi = fam_idx(fams, id);
                match r {
                    Ok(()) => {
                        &&& has_family(fams, id)
                        &&& fams[fi].tenant@ == tenant@ && fams[fi].database@ == database@
                        &&& final(self).families@ == fams.remove(fi)
                        &&& !has_family(final(self).families@, id)
                        &&& final(self).tables == old(self).tables
                        &&& final(self).manifest == old(self).manifest
                    },
                    Err(Error::NotFound) => *final(self) == *old(self) && !addressed_family(
                        *old(self),
                        id,
                        tenant@,
                        database@,
                    ),
                    _ => false,
                }
            }),
    {
        let fi = match self.find_family(id) {
            Some(i) => i,
            None => {
                return Err(Error::NotFound);
            },
        };
        proof {
            lemma_fam_idx_agrees(self.families@, id, fi as int);
        }
        if !(self.families[fi].tenant == *tenant && self.families[fi].database == *database) {
            return Err(Error::NotFound);
        }
        match self.drop_vnode(id) {
            Ok(()) => Ok(()),
            Err(e) => Err(e),
        }
    }

    /// A hierarchical digest of the addressed partition: one digest per
    /// immutable file, folded with the buffered rows' digest into one
    /// root. Comparing roots detects divergence between replicas without
    /// transferring data.
    pub fn get_vnode_hash_tree(&self, vnode_id: u32) -> (r: Result<HashTree, Error>)
        requires
            self.wf(),
        ensures
            ({
                let fams = self.families@;
                let fi = fam_idx(fams, vnode_id);
                match r {
                    Ok(h) => {
                        let f = fams[fi];
                        &&& has_family(fams, vnode_id)
                        &&& h.vnode_id == vnode_id
                        &&& h.file_digests@.len() == f.files@.len()
                        &&& forall|j: int|
                            0 <= j < f.files@.len() ==> #[trigger] h.file_digests@[j] == (
                            f.files@[j].file_id, f.files@[j].checksum)
                        &&& h.root == crate::tsm::mix(
                            fold_checksums(f.files@),
                            crate::tsm::rows_digest(f.buffer.contents()),
                        )
                    },
                    Err(Error::NotFound) => !has_family(fams, vnode_id),
                    _ => false,
                }
            }),
    {
        let fi = match self.find_family(vnode_id) {
            Some(i) => i,
            None => {
                return Err(Error::NotFound);
            },
        };
        proof {
            lemma_fam_idx_agrees(self.families@, vnode_id, fi as int);
        }
        let fam = &self.families[fi];
        let mut digests: Vec<(u64, u64)> = Vec::new();
        let mut h: u64 = 0xcbf29ce484222325;
        let mut i: usize = 0;
        proof {
            assert(fam.files@.subrange(0, 0) =~= Seq::<ColumnFile>::empty());
        }
        while i < fam.files.len()
            invariant
                0 <= i <= fam.files@.len(),
                digests@.len() == i,
                forall|j: int|
                    0 <= j < i ==> #[trigger] digests@[j] == (
                    fam.files@[j].file_id,
                    fam.files@[j].checksum,
                ),
                h == fold_checksums(fam.files@.subrange(0, i as int)),
            decreases fam.files@.len() - i,
        {
            let f = &fam.files[i];
            digests.push((f.file_id, f.checksum));
            h = h.wrapping_mul(0x100000001b3).wrapping_add(f.checksum);
            proof {
                let pre = fam.files@.subrange(0, i as int);
                assert(fam.files@.subrange(0, i + 1) =~= pre.push(fam.files@[i as int]));
                assert(pre.push(fam.files@[i as int]).drop_last() =~= pre);
            }
            i += 1;
        }
        proof {
            assert(fam.files@.subrange(0, fam.files@.len() as int) =~= fam.files@);
        }
        let bd = crate::tsm::rows_digest_exec(&fam.buffer.rows);
        let root = h.wrapping_mul(0x100000001b3).wrapping_add(bd);
        Ok(HashTree { vnode_id, root, file_digests: digests })
    }

    /// Flushes the family at one position directly; used while shutting
    /// down. An empty buffer is left alone; otherwise the buffered rows
    /// become one immutable file committed through a version edit, as in
    /// [`TsKv::flush_tsfamily`].
    fn close_one(&mut self, i: usize) -> (r: Result<(), Error>)
        requires
            old(self).wf(),
            i < old(self).families@.len(),
        ensures
            final(self).wf(),
            final(self).closed == old(self).closed,
            final(self).families@.len() == old(self).families@.len(),
            forall|j: int|
                0 <= j < old(self).families@.len() && j != i ==> final(self).families@[j] == old(self).families@[j],
            final(self).families@[i as int].id == old(self).families@[i as int].id,
            r is Ok ==> final(self).families@[i as int].buffer.contents().len() == 0,
            r matches Err(e) ==> e == Error::IoError && *final(self) == *old(self) && final(self).next_file_id == u64::MAX,
            final(self).next_file_id as int <= old(self).next_file_id as int + 1,
    {
        if self.families[i].buffer.rows.len() == 0 {
            return Ok(());
        }
        if self.next_file_id == u64::MAX {
            return Err(Error::IoError);
        }
        let fid = self.next_file_id;
        let ghost fams0 = self.families@;
        let mut fam = self.families.remove(i);
        let snap = fam.buffer.snapshot();
        let file = ColumnFile::write_blocks(fid, self.schema_version, &snap);
        let meta = file.meta();
        let mut adds: Vec<FileMeta> = Vec::new();
        adds.push(meta);
        let edit = VersionEdit {
            vnode_id: fam.id,
            adds,
            removes: Vec::new(),
            max_seq: fam.last_seq,
        };
        fam.files.push(file);
        fam.buffer.clear();
        self.families.insert(i, fam);
        self.manifest.push(edit);
        self.next_file_id = fid + 1;
        proof {
            assert forall|j: int| 0 <= j < fams0.len() && j != i as int implies self.families@[j]
                == fams0[j] by {
                assert(self.families@[j] == fams0.remove(i as int).insert(i as int, fam)[j]);
            }
            assert(self.families@[i as int] == fam);
            assert(families_unique(self.families@));
        }
        Ok(())
    }

    /// Shuts the engine down: flushes every partition's buffer and marks
    /// the engine closed. Closing an already closed engine is a no-op.
    /// Success is owed whenever enough file-id space remains for one
    /// flush per partition; on failure the engine is still marked closed
    /// and every partition either kept its state or was flushed empty.
    pub fn close(&mut self) -> (r: Result<(), Error>)
        requires
            old(self).wf(),
        ensures
            final(self).wf(),
            final(self).closed,
            old(self).closed ==> *final(self) == *old(self),
            final(self).families@.len() == old(self).families@.len(),
            forall|j: int|
                0 <= j < final(self).families@.len() ==> #[trigger] final(self).families@[j].id
                    == old(self).families@[j].id,
            forall|j: int|
                0 <= j < final(self).families@.len() ==> #[trigger] final(self).families@[j]
                    == old(self).families@[j] || final(self).families@[j].buffer.contents().len()
                    == 0,
            !old(self).closed && r is Ok ==> forall|j: int|
                0 <= j < final(self).families@.len()
                    ==> #[trigger] final(self).families@[j].buffer.contents().len() == 0,
            r matches Err(e) ==> e == Error::IoError && final(self).next_file_id == u64::MAX,
            old(self).next_file_id as int + old(self).families@.len() < u64::MAX as int ==> r
                is Ok,
    {
        if self.closed {
            return Ok(());
        }
        let mut i: usize = 0;
        while i < self.families.len()
            invariant
                0 <= i <= self.families@.len(),
                self.wf(),
                !old(self).closed,
                self.closed == old(self).closed,
                self.families@.len() == old(self).families@.len(),
                self.next_file_id as int <= old(self).next_file_id as int + i,
                forall|j: int|
                    0 <= j < self.families@.len() ==> #[trigger] self.families@[j].id == old(self).families@[j].id,
                forall|j: int|
                    0 <= j < self.families@.len() ==> #[trigger] self.families@[j] == old(self).families@[j] || self.families@[j].buffer.contents().len() == 0,
                forall|j: int|
                    0 <= j < i ==> #[trigger] self.families@[j].buffer.contents().len() == 0,
            decreases self.families@.len() - i,
        {
            let ghost pre = *self;
            match self.close_one(i) {
                Ok(()) => {
                    proof {
                        assert forall|j: int|
                            0 <= j < self.families@.len() implies #[trigger] self.families@[j]
                            == old(self).families@[j] || self.families@[j].buffer.contents().len()
                            == 0 by {
                            if j != i as int {
                                assert(self.families@[j] == pre.families@[j]);
                            }
                        }
                        assert forall|j: int|
                            0 <= j < self.families@.len() implies #[trigger] self.families@[j].id
                            == old(self).families@[j].id by {
                            if j != i as int {
                                assert(self.families@[j] == pre.families@[j]);
                            }
                        }
                        assert forall|j: int| 0 <= j < i implies #[trigger] self.families@[j].buffer.contents().len() == 0 by {
                            assert(self.families@[j] == pre.families@[j]);
                        }
                    }
                },
                Err(e) => {
                    self.closed = true;
                    return Err(e);
                },
            }
            i += 1;
        }
        self.closed = true;
        Ok(())
    }

    /// Registers a series under its identifier for the addressed
    /// partition, so lookups by key and by identifier can answer.
    pub fn add_series(&mut self, vnode_id: u32, series_id: u64, key: SeriesKey)
        requires
            old(self).wf(),
        ensures
            final(self).wf(),
            final(self).series@.len() == old(self).series@.len() + 1,
            final(self).series@.subrange(0, old(self).series@.len() as int) == old(self).series@,
            final(self).series@.last().vnode_id == vnode_id,
            final(self).series@.last().series_id == series_id,
            key_like(final(self).series@.last().key, key),
            final(self).families == old(self).families,
            final(self).tables == old(self).tables,
            final(self).manifest == old(self).manifest,
    {
        self.series.push(SeriesEntry { vnode_id, series_id, key });
        proof {
            assert(final(self).series@.subrange(0, old(self).series@.len() as int) =~= old(self).series@);
        }
    }

    /// Looks a series key up by its identifier within one partition.
    pub fn get_series_key(&self, tenant: &String, database: &String, vnode_id: u32, sid: u64) -> (r:
        Result<Option<SeriesKey>, Error>)
        requires
            self.wf(),
        ensures
            match r {
                Ok(Some(k)) => addressed_family(*self, vnode_id, tenant@, database@)
                    && exists|j: int|
                    0 <= j < self.series@.len() && #[trigger] self.series@[j].vnode_id == vnode_id
                        && self.series@[j].series_id == sid && key_like(k, self.series@[j].key),
                Ok(None) => addressed_family(*self, vnode_id, tenant@, database@) && forall|j: int|
                    0 <= j < self.series@.len() ==> !(#[trigger] self.series@[j].vnode_id
                        == vnode_id && self.series@[j].series_id == sid),
                Err(Error::NotFound) => !addressed_family(*self, vnode_id, tenant@, database@),
                _ => false,
            },
    {
        let fi = match self.find_family(vnode_id) {
            Some(i) => i,
            None => {
                return Err(Error::NotFound);
            },
        };
        proof {
            lemma_fam_idx_agrees(self.families@, vnode_id, fi as int);
        }
        if !(self.families[fi].tenant == *tenant && self.families[fi].database == *database) {
            return Err(Error::NotFound);
        }
        let mut i: usize = 0;
        while i < self.series.len()
            invariant
                0 <= i <= self.series@.len(),
                addressed_family(*self, vnode_id, tenant@, database@),
                forall|j: int|
                    0 <= j < i ==> !(#[trigger] self.series@[j].vnode_id == vnode_id
                        && self.series@[j].series_id == sid),
            decreases self.series@.len() - i,
        {
            let e = &self.series[i];
            if e.vnode_id == vnode_id && e.series_id == sid {
                let k = copy_series_key(&e.key);
                return Ok(Some(k));
            }
            i += 1;
        }
        Ok(None)
    }

    /// Finds the series of one table in one partition whose keys carry
    /// every tag of the filter, and returns their identifiers in index
    /// order.
    pub fn get_series_id_by_filter(
        &self,
        tenant: &String,
        database: &String,
        table: &String,
        vnode_id: u32,
        filter: &Vec<Tag>,
    ) -> (r: Result<Vec<u64>, Error>)
        requires
            self.wf(),
        ensures
            match r {
                Ok(ids) => addressed_family(*self, vnode_id, tenant@, database@) && ids@
                    == matching_ids(self.series@, vnode_id, table@, filter@),
                Err(Error::NotFound) => !addressed_family(*self, vnode_id, tenant@, database@),
                _ => false,
            },
    {
        let fi = match self.find_family(vnode_id) {
            Some(i) => i,
            None => {
                return Err(Error::NotFound);
            },
        };
        proof {
            lemma_fam_idx_agrees(self.families@, vnode_id, fi as int);
        }
        if !(self.families[fi].tenant == *tenant && self.families[fi].database == *database) {
            return Err(Error::NotFound);
        }
        let mut out: Vec<u64> = Vec::new();
        let mut i: usize = 0;
        proof {
            assert(out@ =~= matching_ids(
                self.series@.subrange(0, 0),
                vnode_id,
                table@,
                filter@,
            ));
        }
        while i < self.series.len()
            invariant
                0 <= i <= self.series@.len(),
                addressed_family(*self, vnode_id, tenant@, database@),
                out@ == matching_ids(
                    self.series@.subrange(0, i as int),
                    vnode_id,
                    table@,
                    filter@,
                ),
            decreases self.series@.len() - i,
        {
            let e = &self.series[i];
            let keep = e.vnode_id == vnode_id && e.key.measurement == *table && tags_subset(
                &e.key.tags,
                filter,
            );
            proof {
                let pre = self.series@.subrange(0, i as int);
                let cur = self.series@[i as int];
                assert(self.series@.subrange(0, i + 1) =~= pre.push(cur));
                assert(pre.push(cur).drop_last() =~= pre);
                assert(pre.push(cur).last() == cur);
            }
            if keep {
                out.push(e.series_id);
            }
            i += 1;
        }
        proof {
            assert(self.series@.subrange(0, self.series@.len() as int) =~= self.series@);
        }
        Ok(out)
    }

    /// Records a logical deletion: rows of the named series — restricted
    /// to the named fields, or all fields when none is named — inside
    /// the time range are excluded from future reads and compactions in
    /// every partition of the database. No file is rewritten now.
    pub fn delete_series(
        &mut self,
        tenant: &String,
        database: &String,
        series_ids: &Vec<u64>,
        field_ids: &Vec<u64>,
        time_range: &TimeRange,
    ) -> (r: Result<(), Error>)
        requires
            old(self).wf(),
        ensures
            final(self).wf(),
            r is Ok,
            final(self).families@.len() == old(self).families@.len(),
            forall|j: int|
                0 <= j < old(self).families@.len() ==> tombs_extended(
                    #[trigger] old(self).families@[j],
                    final(self).families@[j],
                    tenant@,
                    database@,
                    series_ids@,
                    field_ids@,
                    *time_range,
                ),
            final(self).tables == old(self).tables,
            final(self).manifest == old(self).manifest,
            final(self).series == old(self).series,
    {
        let mut i: usize = 0;
        while i < self.families.len()
            invariant
                0 <= i <= self.families@.len(),
                self.wf(),
                self.families@.len() == old(self).families@.len(),
                forall|j: int|
                    0 <= j < i ==> tombs_extended(
                        #[trigger] old(self).families@[j],
                        self.families@[j],
                        tenant@,
                        database@,
                        series_ids@,
                        field_ids@,
                        *time_range,
                    ),
                forall|j: int|
                    i <= j < self.families@.len() ==> #[trigger] self.families@[j] == old(self).families@[j],
                self.tables == old(self).tables,
                self.manifest == old(self).manifest,
                self.series == old(self).series,
            decreases self.families@.len() - i,
        {
            let matches = self.families[i].tenant == *tenant && self.families[i].database
                == *database;
            if matches {
                let ghost fams0 = self.families@;
                let mut fam = self.families.remove(i);
                let ghost t0 = fam.tombstones@;
                let mut newt = make_tombstones(series_ids, field_ids, *time_range);
                let ghost newt0 = newt@;
                fam.tombstones.append(&mut newt);
                self.families.insert(i, fam);
                proof {
                    assert forall|j: int|
                        0 <= j < self.families@.len() && j != i as int implies self.families@[j]
                        == fams0[j] by {
                        assert(self.families@[j] == fams0.remove(i as int).insert(i as int, fam)[
                            j]);
                    }
                    assert(self.families@[i as int] == fam);
                    assert(families_unique(self.families@));
                    assert forall|row: Row|
                        spec_tombstoned(self.families@[i as int].tombstones@, row)
                            == (spec_tombstoned(fams0[i as int].tombstones@, row) || del_covers(
                            series_ids@,
                            field_ids@,
                            *time_range,
                            row,
                        )) by {
                        lemma_tombstoned_add(t0, newt0, row);
                    }
                }
            }
            i += 1;
        }
        Ok(())
    }

    /// Removes every partition and table of the addressed database.
    /// In-flight readers keep the snapshots they hold; later operations
    /// on the database's partitions fail with `NotFound`.
    pub fn drop_database(&mut self, tenant: &String, database: &String) -> (r: Result<(), Error>)
        requires
            old(self).wf(),
        ensures
            final(self).wf(),
            r is Ok,
            final(self).families@ == old(self).families@.filter(
                |f: TsFamily| !(f.tenant@ == tenant@ && f.database@ == database@),
            ),
            final(self).tables@ == old(self).tables@.filter(
                |td: TableDef| !(td.tenant@ == tenant@ && td.database@ == database@),
            ),
            final(self).manifest == old(self).manifest,
            final(self).series == old(self).series,
    {
        proof {
            reveal(Seq::filter);
        }
        let ghost pred = |f: TsFamily| !(f.tenant@ == tenant@ && f.database@ == database@);
        let ghost fams0 = self.families@;
        let n = self.families.len();
        let mut kept: Vec<TsFamily> = Vec::new();
        proof {
            assert(fams0.subrange(0, 0) =~= Seq::<TsFamily>::empty());
            assert(kept@ =~= fams0.subrange(0, 0).filter(pred));
        }
        let mut i: usize = 0;
        while self.families.len() > 0
            invariant
                0 <= i <= fams0.len(),
                pred == (|f: TsFamily| !(f.tenant@ == tenant@ && f.database@ == database@)),
                fams0.len() == n as int,
                i <= n,
                self.families@ == fams0.subrange(i as int, fams0.len() as int),
                kept@ == fams0.subrange(0, i as int).filter(pred),
                self.tables == old(self).tables,
                self.manifest == old(self).manifest,
                self.series == old(self).series,
            decreases self.families@.len(),
        {
            proof {
                assert(fams0.subrange(i as int, fams0.len() as int).len() == fams0.len() - i);
                assert(i < fams0.len());
            }
            let ghost pre = fams0.subrange(0, i as int);
            let ghost cur = fams0[i as int];
            proof {
                reveal(Seq::filter);
                assert(fams0.subrange(0, i + 1) =~= pre.push(cur));
                assert(pre.push(cur).drop_last() =~= pre);
            }
            let f = self.families.remove(0);
            proof {
                assert(f == cur);
                assert(self.families@ =~= fams0.subrange(i + 1, fams0.len() as int));
            }
            let keep = !(f.tenant == *tenant && f.database == *database);
            if keep {
                kept.push(f);
            }
            i += 1;
        }
        proof {
            assert(fams0.subrange(0, fams0.len() as int) =~= fams0);
            assert(i as int == fams0.len());
        }
        self.families = kept;
        proof {
            lemma_filter_unique_ids(fams0, pred);
        }

        // the database's tables leave with its partitions
        let ghost tpred = |td: TableDef| !(td.tenant@ == tenant@ && td.database@ == database@);
        let ghost tabs0 = self.tables@;
        let tn = self.tables.len();
        let mut tkept: Vec<TableDef> = Vec::new();
        proof {
            assert(tabs0.subrange(0, 0) =~= Seq::<TableDef>::empty());
            assert(tkept@ =~= tabs0.subrange(0, 0).filter(tpred));
        }
        let mut ti: usize = 0;
        while self.tables.len() > 0
            invariant
                0 <= ti <= tabs0.len(),
                tpred == (|td: TableDef| !(td.tenant@ == tenant@ && td.database@ == database@)),
                tabs0.len() == tn as int,
                ti <= tn,
                self.tables@ == tabs0.subrange(ti as int, tabs0.len() as int),
                tkept@ == tabs0.subrange(0, ti as int).filter(tpred),
                self.families@ == old(self).families@.filter(
                    |f: TsFamily| !(f.tenant@ == tenant@ && f.database@ == database@),
                ),
                families_unique(self.families@),
                self.manifest == old(self).manifest,
                self.series == old(self).series,
            decreases self.tables@.len(),
        {
            proof {
                assert(tabs0.subrange(ti as int, tabs0.len() as int).len() == tabs0.len() - ti);
                assert(ti < tabs0.len());
            }
            let ghost tpre = tabs0.subrange(0, ti as int);
            let ghost tcur = tabs0[ti as int];
            proof {
                reveal(Seq::filter);
                assert(tabs0.subrange(0, ti + 1) =~= tpre.push(tcur));
                assert(tpre.push(tcur).drop_last() =~= tpre);
            }
            let td = self.tables.remove(0);
            proof {
                assert(td == tcur);
                assert(self.tables@ =~= tabs0.subrange(ti + 1, tabs0.len() as int));
            }
            let keep = !(td.tenant == *tenant && td.database == *database);
            if keep {
                tkept.push(td);
            }
            ti += 1;
        }
        proof {
            assert(tabs0.subrange(0, tabs0.len() as int) =~= tabs0);
            assert(ti as int == tabs0.len());
        }
        self.tables = tkept;
        proof {
            lemma_filter_unique_tables(tabs0, tpred);
        }
        Ok(())
    }

    /// Adds a column to a table's schema and advances the schema
    /// version. Files already written keep the schema version recorded
    /// at their creation.
    pub fn add_table_column(
        &mut self,
        tenant: &String,
        database: &String,
        table: &String,
        column_id: u64,
    ) -> (r: Result<(), Error>)
        requires
            old(self).wf(),
        ensures
            final(self).wf(),
            final(self).families == old(self).families,
            final(self).manifest == old(self).manifest,
            match r {
                Ok(()) => exists|i: int|
                    0 <= i < old(self).tables@.len() && table_matches(
                        #[trigger] old(self).tables@[i],
                        tenant@,
                        database@,
                        table@,
                    ) && !old(self).tables@[i].schema.spec_has_column(column_id) && final(self).tables@[i].schema.columns@ == old(self).tables@[i].schema.columns@.push(
                        column_id,
                    ) && final(self).tables@[i].schema.schema_version == old(self).tables@[i].schema.schema_version + 1 && final(self).tables@.len() == old(self).tables@.len() && (forall|j: int|
                        0 <= j < old(self).tables@.len() && j != i ==> final(self).tables@[j]
                            == old(self).tables@[j]),
                Err(Error::NotFound) => *final(self) == *old(self) && !has_table(
                    old(self).tables@,
                    tenant@,
                    database@,
                    table@,
                ),
                Err(Error::SchemaMismatch) => *final(self) == *old(self) && has_table(
                    old(self).tables@,
                    tenant@,
                    database@,
                    table@,
                ) && old(self).tables@[tbl_idx(
                    old(self).tables@,
                    tenant@,
                    database@,
                    table@,
                )].schema.spec_has_column(column_id),
                Err(Error::IoError) => *final(self) == *old(self) && has_table(
                    old(self).tables@,
                    tenant@,
                    database@,
                    table@,
                ) && old(self).tables@[tbl_idx(
                    old(self).tables@,
                    tenant@,
                    database@,
                    table@,
                )].schema.schema_version == u64::MAX,
                _ => false,
            },
    {
        let ti = match self.find_table(tenant, database, table) {
            Some(i) => i,
            None => {
                return Err(Error::NotFound);
            },
        };
        proof {
            lemma_tbl_idx_agrees(self.tables@, tenant@, database@, table@, ti as int);
        }
        if self.tables[ti].schema.has_column(column_id) {
            return Err(Error::SchemaMismatch);
        }
        if self.tables[ti].schema.schema_version == u64::MAX {
            return Err(Error::IoError);
        }
        let ghost tabs0 = self.tables@;
        let mut td = self.tables.remove(ti);
        td.schema.columns.push(column_id);
        td.schema.schema_version = td.schema.schema_version + 1;
        self.tables.insert(ti, td);
        proof {
            assert forall|j: int| 0 <= j < tabs0.len() && j != ti as int implies self.tables@[j]
                == tabs0[j] by {
                assert(self.tables@[j] == tabs0.remove(ti as int).insert(ti as int, td)[j]);
            }
            assert(self.tables@[ti as int] == td);
        }
        Ok(())
    }

    /// Removes a column from a table's schema and advances the schema
    /// version.
    pub fn drop_table_column(
        &mut self,
        tenant: &String,
        database: &String,
        table: &String,
        column_id: u64,
    ) -> (r: Result<(), Error>)
        requires
            old(self).wf(),
        ensures
            final(self).wf(),
            final(self).families == old(self).families,
            final(self).manifest == old(self).manifest,
            match r {
                Ok(()) => exists|i: int|
                    0 <= i < old(self).tables@.len() && table_matches(
                        #[trigger] old(self).tables@[i],
                        tenant@,
                        database@,
                        table@,
                    ) && old(self).tables@[i].schema.spec_has_column(column_id) && final(self).tables@[i].schema.columns@ == old(self).tables@[i].schema.columns@.filter(
                        |c: u64| c != column_id,
                    ) && final(self).tables@[i].schema.schema_version == old(self).tables@[i].schema.schema_version + 1 && final(self).tables@.len() == old(self).tables@.len() && (forall|j: int|
                        0 <= j < old(self).tables@.len() && j != i ==> final(self).tables@[j]
                            == old(self).tables@[j]),
                Err(Error::NotFound) => *final(self) == *old(self) && !has_table(
                    old(self).tables@,
                    tenant@,
                    database@,
                    table@,
                ),
                Err(Error::SchemaMismatch) => *final(self) == *old(self) && has_table(
                    old(self).tables@,
                    tenant@,
                    database@,
                    table@,
                ) && !old(self).tables@[tbl_idx(
                    old(self).tables@,
                    tenant@,
                    database@,
                    table@,
                )].schema.spec_has_column(column_id),
                Err(Error::IoError) => *final(self) == *old(self) && has_table(
                    old(self).tables@,
                    tenant@,
                    database@,
                    table@,
                ) && old(self).tables@[tbl_idx(
                    old(self).tables@,
                    tenant@,
                    database@,
                    table@,
                )].schema.schema_version == u64::MAX,
                _ => false,
            },
    {
        let ti = match self.find_table(tenant, database, table) {
            Some(i) => i,
            None => {
                return Err(Error::NotFound);
            },
        };
        proof {
            lemma_tbl_idx_agrees(self.tables@, tenant@, database@, table@, ti as int);
        }
        if !self.tables[ti].schema.has_column(column_id) {
            return Err(Error::SchemaMismatch);
        }
        if self.tables[ti].schema.schema_version == u64::MAX {
            return Err(Error::IoError);
        }
        proof {
            reveal(Seq::filter);
        }
        let ghost pred = |c: u64| c != column_id;
        let ghost tabs0 = self.tables@;
        let mut td = self.tables.remove(ti);
        let ghost cols0 = td.schema.columns@;
        let mut kept: Vec<u64> = Vec::new();
        let mut i: usize = 0;
        proof {
            assert(cols0.subrange(0, 0) =~= Seq::<u64>::empty());
            assert(kept@ =~= cols0.subrange(0, 0).filter(pred));
        }
        while i < td.schema.columns.len()
            invariant
                0 <= i <= td.schema.columns@.len(),
                td.schema.columns@ == cols0,
                pred == (|c: u64| c != column_id),
                kept@ == cols0.subrange(0, i as int).filter(pred),
            decreases td.schema.columns@.len() - i,
        {
            let ghost pre = cols0.subrange(0, i as int);
            let ghost cur = cols0[i as int];
            proof {
                reveal(Seq::filter);
                assert(cols0.subrange(0, i + 1) =~= pre.push(cur));
                assert(pre.push(cur).drop_last() =~= pre);
            }
            let c = td.schema.columns[i];
            if c != column_id {
                kept.push(c);
            }
            i += 1;
        }
        proof {
            assert(cols0.subrange(0, cols0.len() as int) =~= cols0);
        }
        td.schema.columns = kept;
        td.schema.schema_version = td.schema.schema_version + 1;
        self.tables.insert(ti, td);
        proof {
            assert forall|j: int| 0 <= j < tabs0.len() && j != ti as int implies self.tables@[j]
                == tabs0[j] by {
                assert(self.tables@[j] == tabs0.remove(ti as int).insert(ti as int, td)[j]);
            }
            assert(self.tables@[ti as int] == td);
        }
        Ok(())
    }

    /// Replaces one column of a table's schema by another, atomically,
    /// and advances the schema version.
    pub fn change_table_column(
        &mut self,
        tenant: &String,
        database: &String,
        table: &String,
        column_id: u64,
        new_column_id: u64,
    ) -> (r: Result<(), Error>)
        requires
            old(self).wf(),
        ensures
            final(self).wf(),
            final(self).families == old(self).families,
            final(self).manifest == old(self).manifest,
            r is Ok ==> exists|i: int|
                0 <= i < old(self).tables@.len() && table_matches(
                    #[trigger] old(self).tables@[i],
                    tenant@,
                    database@,
                    table@,
                ) && old(self).tables@[i].schema.spec_has_column(column_id)
                    && final(self).tables@[i].schema.columns@ == old(self).tables@[i].schema.columns@.filter(|c: u64| c != column_id).push(new_column_id)
                    && final(self).tables@[i].schema.schema_version == old(self).tables@[i].schema.schema_version + 1 && final(self).tables@.len() == old(self).tables@.len() && (forall|j: int|
                    0 <= j < old(self).tables@.len() && j != i ==> final(self).tables@[j] == old(self).tables@[j]),
            r matches Err(e) ==> *final(self) == *old(self) && (e == Error::NotFound || e
                == Error::SchemaMismatch || e == Error::IoError),
            r == Err::<(), Error>(Error::NotFound) ==> !has_table(
                old(self).tables@,
                tenant@,
                database@,
                table@,
            ),
            r == Err::<(), Error>(Error::SchemaMismatch) ==> has_table(
                old(self).tables@,
                tenant@,
                database@,
                table@,
            ) && !old(self).tables@[tbl_idx(
                old(self).tables@,
                tenant@,
                database@,
                table@,
            )].schema.spec_has_column(column_id),
            r == Err::<(), Error>(Error::IoError) ==> has_table(
                old(self).tables@,
                tenant@,
                database@,
                table@,
            ) && old(self).tables@[tbl_idx(
                old(self).tables@,
                tenant@,
                database@,
                table@,
            )].schema.schema_version == u64::MAX,
    {
        let ti = match self.find_table(tenant, database, table) {
            Some(i) => i,
            None => {
                return Err(Error::NotFound);
            },
        };
        proof {
            lemma_tbl_idx_agrees(self.tables@, tenant@, database@, table@, ti as int);
        }
        if !self.tables[ti].schema.has_column(column_id) {
            return Err(Error::SchemaMismatch);
        }
        if self.tables[ti].schema.schema_version == u64::MAX {
            return Err(Error::IoError);
        }
        proof {
            reveal(Seq::filter);
        }
        let ghost pred = |c: u64| c != column_id;
        let ghost tabs0 = self.tables@;
        let mut td = self.tables.remove(ti);
        let ghost cols0 = td.schema.columns@;
        let mut kept: Vec<u64> = Vec::new();
        let mut i: usize = 0;
        proof {
            assert(cols0.subrange(0, 0) =~= Seq::<u64>::empty());
            assert(kept@ =~= cols0.subrange(0, 0).filter(pred));
        }
        while i < td.schema.columns.len()
            invariant
                0 <= i <= td.schema.columns@.len(),
                td.schema.columns@ == cols0,
                pred == (|c: u64| c != column_id),
                kept@ == cols0.subrange(0, i as int).filter(pred),
            decreases td.schema.columns@.len() - i,
        {
            let ghost pre = cols0.subrange(0, i as int);
            let ghost cur = cols0[i as int];
            proof {
                reveal(Seq::filter);
                assert(cols0.subrange(0, i + 1) =~= pre.push(cur));
                assert(pre.push(cur).drop_last() =~= pre);
            }
            let c = td.schema.columns[i];
            if c != column_id {
                kept.push(c);
            }
            i += 1;
        }
        proof {
            assert(cols0.subrange(0, cols0.len() as int) =~= cols0);
        }
        kept.push(new_column_id);
        td.schema.columns = kept;
        td.schema.schema_version = td.schema.schema_version + 1;
        self.tables.insert(ti, td);
        proof {
            assert forall|j: int| 0 <= j < tabs0.len() && j != ti as int implies self.tables@[j]
                == tabs0[j] by {
                assert(self.tables@[j] == tabs0.remove(ti as int).insert(ti as int, td)[j]);
            }
            assert(self.tables@[ti as int] == td);
        }
        Ok(())
    }

    /// Drops a table: removes its schema and records a logical deletion
    /// of every series registered for it, in every partition of the
    /// database. Existing immutable files are not rewritten
    /// synchronously; their rows become invisible and are reclaimed by
    /// the next compaction.
    pub fn drop_table(&mut self, tenant: &String, database: &String, table: &String) -> (r: Result<
        (),
        Error,
    >)
        requires
            old(self).wf(),
        ensures
            final(self).wf(),
            final(self).manifest == old(self).manifest,
            match r {
                Ok(()) => {
                    &&& final(self).families@.len() == old(self).families@.len()
                    &&& final(self).tables@.len() + 1 == old(self).tables@.len()
                    &&& forall|j: int|
                        0 <= j < old(self).families@.len() ==> table_dropped(
                            #[trigger] old(self).families@[j],
                            final(self).families@[j],
                            old(self).series@,
                            old(self).families@,
                            tenant@,
                            database@,
                            table@,
                        )
                },
                Err(Error::NotFound) => *final(self) == *old(self) && !has_table(
                    old(self).tables@,
                    tenant@,
                    database@,
                    table@,
                ),
                _ => false,
            },
    {
        let ti = match self.find_table(tenant, database, table) {
            Some(i) => i,
            None => {
                return Err(Error::NotFound);
            },
        };
        self.tables.remove(ti);
        // collect the identifiers of the table's series in this database
        let mut sids: Vec<u64> = Vec::new();
        let mut i: usize = 0;
        while i < self.series.len()
            invariant
                0 <= i <= self.series@.len(),
                self.wf(),
                self.families == old(self).families,
                self.series == old(self).series,
                self.manifest == old(self).manifest,
                forall|x: u64| #[trigger]
                    sids@.contains(x) == table_series_upto(
                        old(self).series@,
                        old(self).families@,
                        tenant@,
                        database@,
                        table@,
                        x,
                        i as int,
                    ),
            decreases self.series@.len() - i,
        {
            let e = &self.series[i];
            let mut belongs = false;
            if e.key.measurement == *table {
                match self.find_family(e.vnode_id) {
                    Some(fi) => {
                        let f = &self.families[fi];
                        if f.tenant == *tenant && f.database == *database {
                            belongs = true;
                            proof {
                                assert(0 <= fi < old(self).families@.len() && old(self).families@[fi as int].id == e.vnode_id && old(self).families@[fi as int].tenant@ == tenant@ && old(self).families@[fi as int].database@ == database@);
                            }
                        }
                    },
                    None => {},
                }
            }
            let ghost s0 = sids@;
            if belongs {
                sids.push(self.series[i].series_id);
            }
            proof {
                assert forall|x: u64| #[trigger]
                    sids@.contains(x) == table_series_upto(
                        old(self).series@,
                        old(self).families@,
                        tenant@,
                        database@,
                        table@,
                        x,
                        i + 1,
                    ) by {
                    if belongs {
                        if sids@.contains(x) {
                            let k = choose|k: int| 0 <= k < sids@.len() && sids@[k] == x;
                            if k < s0.len() {
                                assert(s0[k] == x && s0.contains(x));
                            } else {
                                assert(x == old(self).series@[i as int].series_id);
                            }
                        }
                        if s0.contains(x) {
                            let k = choose|k: int| 0 <= k < s0.len() && s0[k] == x;
                            assert(sids@[k] == x);
                        }
                        if x == old(self).series@[i as int].series_id {
                            assert(sids@[sids@.len() - 1] == x);
                        }
                    }
                }
            }
            i += 1;
        }
        let full = TimeRange { min_ts: i64::MIN, max_ts: i64::MAX };
        let none: Vec<u64> = Vec::new();
        let ghost sids_final = sids@;
        let ghost mid = *self;
        match self.delete_series(tenant, database, &sids, &none, &full) {
            Ok(()) => {},
            Err(e) => {
                return Err(e);
            },
        }
        proof {
            assert forall|j: int| 0 <= j < old(self).families@.len() implies table_dropped(
                #[trigger] old(self).families@[j],
                final(self).families@[j],
                old(self).series@,
                old(self).families@,
                tenant@,
                database@,
                table@,
            ) by {
                assert(tombs_extended(
                    mid.families@[j],
                    self.families@[j],
                    tenant@,
                    database@,
                    sids_final,
                    none@,
                    full,
                ));
                assert(mid.families@[j] == old(self).families@[j]);
                let f0 = old(self).families@[j];
                let f1 = self.families@[j];
                if f0.tenant@ == tenant@ && f0.database@ == database@ {
                    assert forall|row: Row|
                        spec_tombstoned(f1.tombstones@, row) == (spec_tombstoned(
                            f0.tombstones@,
                            row,
                        ) || table_series(
                            old(self).series@,
                            old(self).families@,
                            tenant@,
                            database@,
                            table@,
                            row.series_id,
                        )) by {
                        assert(del_covers(sids_final, none@, full, row) == (sids_final.contains(
                            row.series_id,
                        )));
                        assert(sids_final.contains(row.series_id) == table_series(
                            old(self).series@,
                            old(self).families@,
                            tenant@,
                            database@,
                            table@,
                            row.series_id,
                        ));
                    }
                }
            }
        }
        Ok(())
    }


    /// Forces a flush of the addressed partition: the buffered rows
    /// become one immutable file, committed through a version edit. An
    /// empty buffer flushes as a no-op: no edit is produced and nothing
    /// changes.
    pub fn flush_tsfamily(&mut self, tenant: &String, database: &String, id: u32) -> (r: Result<
        (),
        Error,
    >)
        requires
            old(self).wf(),
        ensures
            final(self).wf(),
            ({
                let fams = old(self).families@;
                let fi = fam_idx(fams, id);
                match r {
                    Ok(()) => {
                        let f0 = fams[fi];
                        let f1 = final(self).families@[fi];
                        &&& has_family(fams, id)
                        &&& f0.tenant@ == tenant@ && f0.database@ == database@
                        &&& (f0.buffer.contents().len() == 0 ==> *final(self) == *old(self))
                        &&& (f0.buffer.contents().len() > 0 ==> {
                            &&& f1.files@.len() == f0.files@.len() + 1
                            &&& f1.files@.subrange(0, f0.files@.len() as int) == f0.files@
                            &&& f1.files@.last().wf()
                            &&& f1.files@.last().file_id == old(self).next_file_id
                            &&& f1.files@.last().rows@.to_multiset()
                                == f0.buffer.contents().to_multiset()
                            &&& f1.buffer.contents().len() == 0
                            &&& f1.last_seq == f0.last_seq
                            &&& f1.wal == f0.wal
                            &&& f1.tombstones == f0.tombstones
                            &&& f1.id == f0.id
                            &&& view_edits(final(self).manifest@) == view_edits(
                                old(self).manifest@,
                            ).push(
                                VersionEditV {
                                    vnode_id: id,
                                    adds: seq![f1.files@.last().spec_meta()],
                                    removes: Seq::empty(),
                                    max_seq: f0.last_seq,
                                },
                            )
                            &&& final(self).next_file_id == old(self).next_file_id + 1
                            &&& final(self).families@.len() == fams.len()
                            &&& forall|j: int|
                                0 <= j < fams.len() && j != fi ==> final(self).families@[j]
                                    == fams[j]
                            &&& final(self).tables == old(self).tables
                        })
                    },
                    Err(Error::NotFound) => *final(self) == *old(self) && !addressed_family(
                        *old(self),
                        id,
                        tenant@,
                        database@,
                    ),
                    Err(Error::IoError) => *final(self) == *old(self) && addressed_family(
                        *old(self),
                        id,
                        tenant@,
                        database@,
                    ) && fams[fi].buffer.contents().len() > 0 && old(self).next_file_id
                        == u64::MAX,
                    _ => false,
                }
            }),
    {
        let fi = match self.find_family(id) {
            Some(i) => i,
            None => {
                return Err(Error::NotFound);
            },
        };
        proof {
            lemma_fam_idx_agrees(self.families@, id, fi as int);
        }
        if !(self.families[fi].tenant == *tenant && self.families[fi].database == *database) {
            return Err(Error::NotFound);
        }
        if self.families[fi].buffer.rows.len() == 0 {
            return Ok(());
        }
        if self.next_file_id == u64::MAX {
            return Err(Error::IoError);
        }
        let fid = self.next_file_id;
        let ghost fams0 = self.families@;
        let mut fam = self.families.remove(fi);
        let snap = fam.buffer.snapshot();
        let file = ColumnFile::write_blocks(fid, self.schema_version, &snap);
        let meta = file.meta();
        let mut adds: Vec<FileMeta> = Vec::new();
        adds.push(meta);
        let edit = VersionEdit { vnode_id: id, adds, removes: Vec::new(), max_seq: fam.last_seq };
        fam.files.push(file);
        fam.buffer.clear();
        self.families.insert(fi, fam);
        self.manifest.push(edit);
        self.next_file_id = fid + 1;
        proof {
            assert forall|j: int| 0 <= j < fams0.len() && j != fi as int implies self.families@[j]
                == fams0[j] by {
                assert(self.families@[j] == fams0.remove(fi as int).insert(fi as int, fam)[j]);
            }
            assert(self.families@[fi as int] == fam);
            assert(families_unique(self.families@));
            assert(fam.files@.subrange(0, fams0[fi as int].files@.len() as int) =~= fams0[
                fi as int].files@);
            assert(edit.adds@ =~= seq![fam.files@.last().spec_meta()]);
            assert(edit.removes@ =~= Seq::<u64>::empty());
            assert(view_edits(self.manifest@) =~= view_edits(old(self).manifest@).push(
                edit.view_edit(),
            ));
        }
        Ok(())
    }

    /// Compacts the addressed partition: merges every immutable file,
    /// drops tombstoned rows, resolves duplicate coordinates by last
    /// write wins, and commits the swap as one atomic version edit. The
    /// rows visible through the new file set are exactly the rows that
    /// were visible through the old one.
    pub fn compact_vnode(&mut self, id: u32) -> (r: Result<(), Error>)
        requires
            old(self).wf(),
        ensures
            final(self).wf(),
            ({
                let fams = old(self).families@;
                let fi = fam_idx(fams, id);
                match r {
                    Ok(()) => {
                        let f0 = fams[fi];
                        let f1 = final(self).families@[fi];
                        &&& has_family(fams, id)
                        &&& (f0.files@.len() == 0 ==> *final(self) == *old(self))
                        &&& (f0.files@.len() > 0 ==> {
                            &&& f1.files@.len() == 1
                            &&& f1.files@[0].wf()
                            &&& f1.files@[0].file_id == old(self).next_file_id
                            &&& f1.files@[0].rows@.to_set() == crate::compaction::visible_rows(
                                flatten_rows(file_rows_views(f0.files@)),
                                f0.tombstones@,
                            )
                            &&& f1.buffer == f0.buffer
                            &&& f1.last_seq == f0.last_seq
                            &&& f1.wal == f0.wal
                            &&& f1.tombstones == f0.tombstones
                            &&& f1.id == f0.id
                            &&& f1.tenant == f0.tenant
                            &&& f1.database == f0.database
                            &&& view_edits(final(self).manifest@) == view_edits(
                                old(self).manifest@,
                            ).push(
                                VersionEditV {
                                    vnode_id: id,
                                    adds: seq![f1.files@[0].spec_meta()],
                                    removes: Seq::new(
                                        f0.files@.len(),
                                        |i: int| f0.files@[i].file_id,
                                    ),
                                    max_seq: f0.last_seq,
                                },
                            )
                            &&& final(self).next_file_id == old(self).next_file_id + 1
                            &&& final(self).families@.len() == fams.len()
                            &&& forall|j: int|
                                0 <= j < fams.len() && j != fi ==> final(self).families@[j]
                                    == fams[j]
                            &&& final(self).tables == old(self).tables
                            &&& final(self).series == old(self).series
                        })
                    },
                    Err(Error::NotFound) => *final(self) == *old(self) && !has_family(fams, id),
                    Err(Error::IoError) => *final(self) == *old(self) && has_family(fams, id)
                        && fams[fi].files@.len() > 0 && old(self).next_file_id == u64::MAX,
                    _ => false,
                }
            }),
    {
        let fi = match self.find_family(id) {
            Some(i) => i,
            None => {
                return Err(Error::NotFound);
            },
        };
        proof {
            lemma_fam_idx_agrees(self.families@, id, fi as int);
        }
        if self.families[fi].files.len() == 0 {
            return Ok(());
        }
        if self.next_file_id == u64::MAX {
            return Err(Error::IoError);
        }
        let fid = self.next_file_id;
        let ghost fams0 = self.families@;
        let mut fam = self.families.remove(fi);

        // gather every row of the input files, in file order
        let mut all: Vec<Row> = Vec::new();
        let mut removes: Vec<u64> = Vec::new();
        let mut i: usize = 0;
        proof {
            assert(all@ =~= flatten_rows(file_rows_views(fam.files@).subrange(0, 0)));
        }
        while i < fam.files.len()
            invariant
                0 <= i <= fam.files@.len(),
                all@ == flatten_rows(file_rows_views(fam.files@).subrange(0, i as int)),
                removes@ == Seq::new(i as nat, |j: int| fam.files@[j].file_id),
            decreases fam.files@.len() - i,
        {
            let ghost views = file_rows_views(fam.files@);
            let mut part = copy_vec(&fam.files[i].rows);
            all.append(&mut part);
            removes.push(fam.files[i].file_id);
            proof {
                crate::compaction::lemma_flatten_rows_push(
                    views.subrange(0, i as int),
                    views[i as int],
                );
                assert(views.subrange(0, i + 1) =~= views.subrange(0, i as int).push(
                    views[i as int],
                ));
                assert(removes@ =~= Seq::new((i + 1) as nat, |j: int| fam.files@[j].file_id));
            }
            i += 1;
        }
        proof {
            assert(file_rows_views(fam.files@).subrange(
                0,
                file_rows_views(fam.files@).len() as int,
            ) =~= file_rows_views(fam.files@));
        }

        let merged = crate::compaction::compact_rows(&all, &fam.tombstones);
        let file = ColumnFile::write_blocks(fid, self.schema_version, &merged);
        let meta = file.meta();
        proof {
            broadcast use vstd::seq_lib::group_to_multiset_ensures;

            assert forall|r: Row| file.rows@.to_set().contains(r)
                == crate::compaction::visible_rows(all@, fam.tombstones@).contains(r) by {
                assert(file.rows@.contains(r) == (file.rows@.to_multiset().count(r) > 0));
                assert(merged@.contains(r) == (merged@.to_multiset().count(r) > 0));
                if merged@.contains(r) {
                    let k = choose|k: int| 0 <= k < merged@.len() && merged@[k] == r;
                    assert(crate::compaction::winner_source(
                        all@,
                        fam.tombstones@,
                        all@.len() as int,
                        merged@[k],
                    ));
                    let w = choose|t: int|
                        0 <= t < all@.len() && #[trigger] crate::compaction::wins(
                            all@,
                            fam.tombstones@,
                            t,
                        ) && all@[t] == r;
                    assert(crate::compaction::visible_rows(all@, fam.tombstones@).contains(r));
                }
                if crate::compaction::visible_rows(all@, fam.tombstones@).contains(r) {
                    let w = choose|t: int|
                        #[trigger] crate::compaction::wins(all@, fam.tombstones@, t) && all@[t]
                            == r;
                    assert(merged@.contains(all@[w]));
                }
            }
            assert(file.rows@.to_set() =~= crate::compaction::visible_rows(
                all@,
                fam.tombstones@,
            ));
        }
        let edit = VersionEdit { vnode_id: id, adds: vec_of_one(meta), removes, max_seq: fam.last_seq };
        let mut nf: Vec<ColumnFile> = Vec::new();
        nf.push(file);
        let ghost old_files = fam.files@;
        fam.files = nf;
        self.families.insert(fi, fam);
        self.manifest.push(edit);
        self.next_file_id = fid + 1;
        proof {
            assert forall|j: int| 0 <= j < fams0.len() && j != fi as int implies self.families@[j]
                == fams0[j] by {
                assert(self.families@[j] == fams0.remove(fi as int).insert(fi as int, fam)[j]);
            }
            assert(self.families@[fi as int] == fam);
            assert(families_unique(self.families@));
            assert(edit.adds@ =~= seq![fam.files@[0].spec_meta()]);
            assert(edit.removes@ =~= Seq::new(old_files.len(), |i: int| old_files[i].file_id));
            assert(view_edits(self.manifest@) =~= view_edits(old(self).manifest@).push(
                edit.view_edit(),
            ));
        }
        Ok(())
    }

    /// Compacts several partitions in turn; partitions compact
    /// independently of one another: a failure on one leaves the others'
    /// results in place. Compaction never touches buffers, WALs,
    /// watermarks or tombstones. Success is owed whenever every named
    /// partition exists and enough file-id space remains.
    /// Compacts one partition for [`TsKv::compact`], exposing only what
    /// the loop over partitions relies on.
    #[verifier::rlimit(100)]
    #[verifier::spinoff_prover]
    fn compact_one(&mut self, id: u32) -> (r: Result<(), Error>)
        requires
            old(self).wf(),
        ensures
            final(self).wf(),
            final(self).families@.len() == old(self).families@.len(),
            forall|j: int|
                0 <= j < old(self).families@.len() ==> compact_untouched(
                    #[trigger] old(self).families@[j],
                    final(self).families@[j],
                ),
            final(self).tables == old(self).tables,
            final(self).series == old(self).series,
            final(self).next_file_id as int <= old(self).next_file_id as int + 1,
            r is Ok ==> has_family(old(self).families@, id),
            r matches Err(e) ==> (e == Error::NotFound && !has_family(old(self).families@, id))
                || (e == Error::IoError && final(self).next_file_id == u64::MAX),
            has_family(old(self).families@, id) && old(self).next_file_id < u64::MAX ==> r is Ok,
    {
        let ghost fams0 = self.families@;
        let r = self.compact_vnode(id);
        proof {
            let fi = fam_idx(fams0, id);
            match r {
                Ok(()) => {
                    assert forall|j: int|
                        0 <= j < fams0.len() implies compact_untouched(
                        #[trigger] fams0[j],
                        self.families@[j],
                    ) by {
                        if fams0[fi].files@.len() == 0 {
                        } else if j != fi {
                        }
                    }
                },
                Err(e) => {},
            }
        }
        r
    }

    pub fn compact(&mut self, vnode_ids: Vec<u32>) -> (r: Result<(), Error>)
        requires
            old(self).wf(),
        ensures
            final(self).wf(),
            final(self).families@.len() == old(self).families@.len(),
            forall|j: int|
                0 <= j < old(self).families@.len() ==> compact_untouched(
                    #[trigger] old(self).families@[j],
                    final(self).families@[j],
                ),
            final(self).tables == old(self).tables,
            final(self).series == old(self).series,
            r is Ok ==> forall|i: int|
                0 <= i < vnode_ids@.len() ==> has_family(
                    old(self).families@,
                    #[trigger] vnode_ids@[i],
                ),
            r matches Err(e) ==> (e == Error::NotFound && exists|k: int|
                0 <= k < vnode_ids@.len() && !has_family(
                    old(self).families@,
                    #[trigger] vnode_ids@[k],
                )) || (e == Error::IoError && final(self).next_file_id == u64::MAX),
            (forall|k: int|
                0 <= k < vnode_ids@.len() ==> has_family(
                    old(self).families@,
                    #[trigger] vnode_ids@[k],
                )) && old(self).next_file_id as int + vnode_ids@.len() < u64::MAX as int ==> r
                is Ok,
    {
        let mut i: usize = 0;
        let ghost ids0 = spec_family_ids(self.families@);
        proof {
            lemma_family_ids(self.families@);
        }
        while i < vnode_ids.len()
            invariant
                0 <= i <= vnode_ids@.len(),
                self.wf(),
                ids0 == spec_family_ids(old(self).families@),
                spec_family_ids(self.families@) == ids0,
                self.families@.len() == old(self).families@.len(),
                self.next_file_id as int <= old(self).next_file_id as int + i,
                self.tables == old(self).tables,
                self.series == old(self).series,
                forall|j: int|
                    0 <= j < old(self).families@.len() ==> compact_untouched(
                        #[trigger] old(self).families@[j],
                        self.families@[j],
                    ),
                forall|j: int|
                    0 <= j < i ==> has_family(old(self).families@, #[trigger] vnode_ids@[j]),
            decreases vnode_ids@.len() - i,
        {
            let ghost pre = *self;
            match self.compact_one(vnode_ids[i]) {
                Ok(()) => {
                    proof {
                        lemma_same_ids(pre.families@, self.families@);
                        assert(has_family(pre.families@, vnode_ids@[i as int]));
                        lemma_has_family_ids(
                            old(self).families@,
                            pre.families@,
                            vnode_ids@[i as int],
                        );
                        assert forall|j: int|
                            0 <= j < old(self).families@.len() implies compact_untouched(
                            #[trigger] old(self).families@[j],
                            self.families@[j],
                        ) by {
                            assert(compact_untouched(old(self).families@[j], pre.families@[j]));
                            assert(compact_untouched(pre.families@[j], self.families@[j]));
                        }
                    }
                },
                Err(e) => {
                    proof {
                        if e == Error::NotFound {
                            assert(!has_family(pre.families@, vnode_ids@[i as int]));
                            lemma_family_ids(pre.families@);
                            lemma_family_ids(old(self).families@);
                            assert(!has_family(old(self).families@, vnode_ids@[i as int]));
                        }
                    }
                    return Err(e);
                },
            }
            i += 1;
        }
        Ok(())
    }
}

/// What compaction leaves untouched in one family: everything but the
/// file list.
pub open spec fn compact_untouched(f0: TsFamily, f1: TsFamily) -> bool {
    &&& f1.id == f0.id
    &&& f1.tenant == f0.tenant
    &&& f1.database == f0.database
    &&& f1.buffer == f0.buffer
    &&& f1.wal == f0.wal
    &&& f1.last_seq == f0.last_seq
    &&& f1.tombstones == f0.tombstones
}

/// The row sequences of a list of files, in order.
pub open spec fn file_rows_views(files: Seq<ColumnFile>) -> Seq<Seq<Row>> {
    Seq::new(files.len(), |i: int| files[i].rows@)
}

/// The ids of a list of families, in order.
pub open spec fn spec_family_ids(families: Seq<TsFamily>) -> Seq<u32> {
    Seq::new(families.len(), |i: int| families[i].id)
}

pub proof fn lemma_family_ids(families: Seq<TsFamily>)
    ensures
        forall|id: u32| has_family(families, id) == spec_family_ids(families).contains(id),
{
    assert forall|id: u32| has_family(families, id) == spec_family_ids(families).contains(
        id,
    ) by {
        if has_family(families, id) {
            let i = choose|i: int| 0 <= i < families.len() && #[trigger] families[i].id == id;
            assert(spec_family_ids(families)[i] == id);
        }
        if spec_family_ids(families).contains(id) {
            let i = choose|i: int|
                0 <= i < spec_family_ids(families).len() && spec_family_ids(families)[i] == id;
            assert(families[i].id == id);
        }
    }
}

/// Two family lists with elementwise equal ids own the same partitions.
pub proof fn lemma_same_ids(a: Seq<TsFamily>, b: Seq<TsFamily>)
    requires
        a.len() == b.len(),
        forall|j: int| 0 <= j < a.len() ==> #[trigger] b[j].id == a[j].id,
    ensures
        spec_family_ids(a) == spec_family_ids(b),
{
    assert(spec_family_ids(a) =~= spec_family_ids(b));
}

pub proof fn lemma_has_family_ids(a: Seq<TsFamily>, b: Seq<TsFamily>, id: u32)
    requires
        spec_family_ids(a) == spec_family_ids(b),
        has_family(b, id),
    ensures
        has_family(a, id),
{
    lemma_family_ids(a);
    lemma_family_ids(b);
}

/// A vector holding one element.
pub fn vec_of_one(m: FileMeta) -> (r: Vec<FileMeta>)
    ensures
        r@ =~= seq![m],
{
    let mut r: Vec<FileMeta> = Vec::new();
    r.push(m);
    r
}


/// An immutable, shareable snapshot of one partition: the buffered rows,
/// the immutable file list and the tombstones at the moment it was taken.
/// Readers operate entirely against such a snapshot; writers and
/// compaction replace the partition's current snapshot but never mutate
/// one already handed out.
pub struct SuperVersion {
    pub vnode_id: u32,
    pub buffer_snapshot: Vec<Row>,
    pub files: Vec<ColumnFile>,
    pub tombstones: Vec<Tombstone>,
}

/// Every row a snapshot holds: its files' rows, then its buffered rows.
pub open spec fn sv_all_rows(sv: SuperVersion) -> Seq<Row> {
    flatten_rows(file_rows_views(sv.files@)) + sv.buffer_snapshot@
}

/// The rows a reader sees through a snapshot: tombstoned rows excluded,
/// duplicate coordinates resolved by last write wins.
pub open spec fn sv_visible(sv: SuperVersion) -> Set<Row> {
    crate::compaction::visible_rows(sv_all_rows(sv), sv.tombstones@)
}

/// Whether two files hold the same content.
pub open spec fn file_like(a: ColumnFile, b: ColumnFile) -> bool {
    &&& a.file_id == b.file_id
    &&& a.schema_version == b.schema_version
    &&& a.time_range == b.time_range
    &&& a.rows@ == b.rows@
    &&& a.checksum == b.checksum
}

/// Whether two file lists hold the same content, file by file.
pub open spec fn files_like(a: Seq<ColumnFile>, b: Seq<ColumnFile>) -> bool {
    a.len() == b.len() && forall|j: int| 0 <= j < a.len() ==> file_like(#[trigger] a[j], b[j])
}

/// Snapshot isolation: what a reader sees through a SuperVersion is a
/// function of the snapshot's contents alone, never of the engine's
/// current state. Two snapshots with the same contents read alike, so a
/// snapshot held by a reader is unaffected when flush or compaction
/// replaces the partition's current version.
pub proof fn lemma_snapshot_isolation(sv1: SuperVersion, sv2: SuperVersion)
    requires
        sv1.buffer_snapshot@ == sv2.buffer_snapshot@,
        files_like(sv1.files@, sv2.files@),
        sv1.tombstones@ == sv2.tombstones@,
    ensures
        sv_visible(sv1) == sv_visible(sv2),
{
    assert(file_rows_views(sv1.files@) =~= file_rows_views(sv2.files@));
    assert(sv_all_rows(sv1) == sv_all_rows(sv2));
}

/// A hierarchical digest of one partition.
#[derive(Debug)]
pub struct HashTree {
    pub vnode_id: u32,
    pub root: u64,
    pub file_digests: Vec<(u64, u64)>,
}

/// Folds the checksums of a file list into one word, in order.
pub open spec fn fold_checksums(files: Seq<ColumnFile>) -> u64
    decreases files.len(),
{
    if files.len() == 0 {
        0xcbf29ce484222325
    } else {
        crate::tsm::mix(fold_checksums(files.drop_last()), files.last().checksum)
    }
}

/// One entry of the series index: the key registered for a series
/// identifier within one partition.
pub struct SeriesEntry {
    pub vnode_id: u32,
    pub series_id: u64,
    pub key: SeriesKey,
}

/// Whether two series keys hold the same measurement and tags.
pub open spec fn key_like(a: SeriesKey, b: SeriesKey) -> bool {
    &&& a.measurement@ == b.measurement@
    &&& a.tags@.len() == b.tags@.len()
    &&& forall|j: int|
        0 <= j < a.tags@.len() ==> #[trigger] a.tags@[j].key@ == b.tags@[j].key@ && a.tags@[
            j].value@ == b.tags@[j].value@
}

/// Whether a tag occurs, by content, in a tag list.
pub open spec fn tag_in(tags: Seq<Tag>, t: Tag) -> bool {
    exists|j: int|
        0 <= j < tags.len() && #[trigger] tags[j].key@ == t.key@ && tags[j].value@ == t.value@
}

/// Whether a series key carries every tag of the filter.
pub open spec fn key_matches_filter(key: SeriesKey, filter: Seq<Tag>) -> bool {
    forall|i: int| 0 <= i < filter.len() ==> tag_in(key.tags@, #[trigger] filter[i])
}

/// The identifiers of the series of one table in one partition whose
/// keys carry every tag of the filter, in index order.
pub open spec fn matching_ids(
    series: Seq<SeriesEntry>,
    vnode_id: u32,
    table: Seq<char>,
    filter: Seq<Tag>,
) -> Seq<u64>
    decreases series.len(),
{
    if series.len() == 0 {
        Seq::empty()
    } else {
        let rest = matching_ids(series.drop_last(), vnode_id, table, filter);
        let e = series.last();
        if e.vnode_id == vnode_id && e.key.measurement@ == table && key_matches_filter(
            e.key,
            filter,
        ) {
            rest.push(e.series_id)
        } else {
            rest
        }
    }
}

/// Executable test for [`tag_in`] over every tag of a filter.
pub fn tags_subset(tags: &Vec<Tag>, filter: &Vec<Tag>) -> (r: bool)
    ensures
        r == (forall|i: int| 0 <= i < filter@.len() ==> tag_in(tags@, #[trigger] filter@[i])),
{
    let mut i: usize = 0;
    while i < filter.len()
        invariant
            0 <= i <= filter@.len(),
            forall|j: int| 0 <= j < i ==> tag_in(tags@, #[trigger] filter@[j]),
        decreases filter@.len() - i,
    {
        let t = &filter[i];
        let mut found = false;
        let mut j: usize = 0;
        while j < tags.len()
            invariant
                0 <= j <= tags@.len(),
                i < filter@.len(),
                t == &filter@[i as int],
                found ==> tag_in(tags@, filter@[i as int]),
                !found ==> forall|k: int|
                    0 <= k < j ==> !(#[trigger] tags@[k].key@ == filter@[i as int].key@ && tags@[
                        k].value@ == filter@[i as int].value@),
            decreases tags@.len() - j,
        {
            if tags[j].key == t.key && tags[j].value == t.value {
                proof {
                    assert(tags@[j as int].key@ == filter@[i as int].key@);
                }
                found = true;
            }
            j += 1;
        }
        if !found {
            return false;
        }
        i += 1;
    }
    true
}

/// Copies a series key.
#[verifier::spinoff_prover]
pub fn copy_series_key(k: &SeriesKey) -> (r: SeriesKey)
    ensures
        key_like(r, *k),
{
    let mut tags: Vec<Tag> = Vec::new();
    let mut i: usize = 0;
    while i < k.tags.len()
        invariant
            0 <= i <= k.tags@.len(),
            tags@.len() == i,
            forall|j: int|
                0 <= j < i ==> #[trigger] tags@[j].key@ == k.tags@[j].key@ && tags@[j].value@
                    == k.tags@[j].value@,
        decreases k.tags@.len() - i,
    {
        let t = &k.tags[i];
        let kc = t.key.clone();
        let vc = t.value.clone();
        proof {
            assert(kc@ == k.tags@[i as int].key@);
            assert(vc@ == k.tags@[i as int].value@);
        }
        let ghost tags0 = tags@;
        tags.push(Tag { key: kc, value: vc });
        proof {
            assert forall|j: int|
                0 <= j < i + 1 implies #[trigger] tags@[j].key@ == k.tags@[j].key@ && tags@[
                j].value@ == k.tags@[j].value@ by {
                if j < i as int {
                    assert(tags@[j] == tags0[j]);
                    assert(tags0[j].key@ == k.tags@[j].key@ && tags0[j].value@ == k.tags@[
                        j].value@);
                } else {
                    assert(tags@[j] == (Tag { key: kc, value: vc }));
                }
            }
        }
        i += 1;
    }
    let m = k.measurement.clone();
    let r = SeriesKey { measurement: m, tags };
    proof {
        assert(r.measurement@ == k.measurement@);
        assert(r.tags@.len() == k.tags@.len());
        assert forall|j: int|
            0 <= j < r.tags@.len() implies #[trigger] r.tags@[j].key@ == k.tags@[j].key@
            && r.tags@[j].value@ == k.tags@[j].value@ by {}
    }
    r
}

/// How a logical delete changes one family: everything but the
/// tombstones is untouched; for families of the addressed database the
/// tombstones grow to cover exactly the deleted rows as well.
pub open spec fn tombs_extended(
    f0: TsFamily,
    f1: TsFamily,
    tenant: Seq<char>,
    database: Seq<char>,
    sids: Seq<u64>,
    fids: Seq<u64>,
    range: TimeRange,
) -> bool {
    &&& f1.id == f0.id
    &&& f1.tenant == f0.tenant
    &&& f1.database == f0.database
    &&& f1.last_seq == f0.last_seq
    &&& f1.buffer == f0.buffer
    &&& f1.files == f0.files
    &&& f1.wal == f0.wal
    &&& (!(f0.tenant@ == tenant && f0.database@ == database) ==> f1 == f0)
    &&& (f0.tenant@ == tenant && f0.database@ == database ==> forall|row: Row|
        spec_tombstoned(f1.tombstones@, row) == (spec_tombstoned(f0.tombstones@, row)
            || del_covers(sids, fids, range, row)))
}

/// How dropping a table changes one family: for families of the
/// addressed database the tombstones grow to cover exactly the rows of
/// the table's series; everything else is untouched.
pub open spec fn table_dropped(
    f0: TsFamily,
    f1: TsFamily,
    series: Seq<SeriesEntry>,
    families: Seq<TsFamily>,
    tenant: Seq<char>,
    database: Seq<char>,
    table: Seq<char>,
) -> bool {
    &&& f1.id == f0.id
    &&& f1.tenant == f0.tenant
    &&& f1.database == f0.database
    &&& f1.last_seq == f0.last_seq
    &&& f1.buffer == f0.buffer
    &&& f1.files == f0.files
    &&& f1.wal == f0.wal
    &&& (!(f0.tenant@ == tenant && f0.database@ == database) ==> f1 == f0)
    &&& (f0.tenant@ == tenant && f0.database@ == database ==> forall|row: Row|
        spec_tombstoned(f1.tombstones@, row) == (spec_tombstoned(f0.tombstones@, row)
            || table_series(series, families, tenant, database, table, row.series_id)))
}

/// Reads one series inside a time range through a snapshot: exactly the
/// visible rows of that series in the range, in timestamp order. The
/// result is a function of the snapshot alone.
pub fn read_version(sv: &SuperVersion, series_id: u64, tr: TimeRange) -> (r: Vec<Row>)
    ensures
        crate::types::rows_sorted(r@),
        forall|row: Row|
            #[trigger] r@.contains(row) == (sv_visible(*sv).contains(row) && row.series_id
                == series_id && tr.spec_contains(row.ts)),
        forall|k1: int, k2: int| 0 <= k1 < k2 < r@.len() ==> !(r@[k1].key() == r@[k2].key()),
{
    broadcast use vstd::seq_lib::group_to_multiset_ensures;

    // every row the snapshot holds, files first, buffer last
    let mut all: Vec<Row> = Vec::new();
    let mut i: usize = 0;
    proof {
        assert(all@ =~= flatten_rows(file_rows_views(sv.files@).subrange(0, 0)));
    }
    while i < sv.files.len()
        invariant
            0 <= i <= sv.files@.len(),
            all@ == flatten_rows(file_rows_views(sv.files@).subrange(0, i as int)),
        decreases sv.files@.len() - i,
    {
        let ghost views = file_rows_views(sv.files@);
        let mut part = copy_vec(&sv.files[i].rows);
        all.append(&mut part);
        proof {
            crate::compaction::lemma_flatten_rows_push(views.subrange(0, i as int), views[i as int]);
            assert(views.subrange(0, i + 1) =~= views.subrange(0, i as int).push(views[i as int]));
        }
        i += 1;
    }
    let mut buf = copy_vec(&sv.buffer_snapshot);
    all.append(&mut buf);
    proof {
        assert(file_rows_views(sv.files@).subrange(0, file_rows_views(sv.files@).len() as int)
            =~= file_rows_views(sv.files@));
        assert(all@ == sv_all_rows(*sv));
    }
    let merged = crate::compaction::compact_rows(&all, &sv.tombstones);
    proof {
        assert forall|row: Row| #[trigger]
            merged@.contains(row) == sv_visible(*sv).contains(row) by {
            if merged@.contains(row) {
                let k = choose|k: int| 0 <= k < merged@.len() && merged@[k] == row;
                assert(crate::compaction::winner_source(
                    all@,
                    sv.tombstones@,
                    all@.len() as int,
                    merged@[k],
                ));
                let w = choose|w: int|
                    0 <= w < all@.len() && #[trigger] crate::compaction::wins(
                        all@,
                        sv.tombstones@,
                        w,
                    ) && all@[w] == row;
                assert(sv_visible(*sv).contains(row));
            }
            if sv_visible(*sv).contains(row) {
                let w = choose|w: int|
                    #[trigger] crate::compaction::wins(all@, sv.tombstones@, w) && all@[w] == row;
                assert(merged@.contains(all@[w]));
            }
        }
    }
    let filtered = crate::memcache::filter_rows(&merged, series_id, tr);
    proof {
        let pred = |row: Row| row.series_id == series_id && tr.spec_contains(row.ts);
        merged@.filter_lemma(pred);
        lemma_filter_elems(merged@, pred);
        assert forall|row: Row| #[trigger]
            filtered@.contains(row) == (merged@.contains(row) && row.series_id == series_id
                && tr.spec_contains(row.ts)) by {
            if filtered@.contains(row) {
                let k = choose|k: int| 0 <= k < filtered@.len() && filtered@[k] == row;
                assert(pred(filtered@[k]));
                assert(merged@.contains(filtered@[k]));
            }
            if merged@.contains(row) && pred(row) {
                let k = choose|k: int| 0 <= k < merged@.len() && merged@[k] == row;
                assert(filtered@.contains(merged@[k]));
            }
        }
    }
    let out = crate::types::sort_rows(&filtered);
    proof {
        assert forall|row: Row| #[trigger]
            out@.contains(row) == filtered@.contains(row) by {
            assert(out@.contains(row) == (out@.to_multiset().count(row) > 0));
            assert(filtered@.contains(row) == (filtered@.to_multiset().count(row) > 0));
        }
        // the merge left one entry per coordinate; the filter and the
        // sort keep that
        let pred = |row: Row| row.series_id == series_id && tr.spec_contains(row.ts);
        lemma_filter_distinct_keys(merged@, pred);
        assert forall|k1: int, k2: int|
            0 <= k1 < k2 < out@.len() implies !(out@[k1].key() == out@[k2].key()) by {
            if out@[k1].key() == out@[k2].key() {
                if out@[k1] == out@[k2] {
                    crate::types::lemma_two_positions_count(out@, k1, k2);
                    assert(filtered@.to_multiset().count(out@[k1]) >= 2);
                    crate::types::lemma_count_two_positions(filtered@, out@[k1]);
                    let (p1, p2) = choose|p1: int, p2: int|
                        #![trigger filtered@[p1], filtered@[p2]]
                        0 <= p1 < p2 < filtered@.len() && filtered@[p1] == out@[k1] && filtered@[
                        p2] == out@[k1];
                    assert(!(filtered@[p1].key() == filtered@[p2].key()));
                    assert(false);
                } else {
                    assert(out@.contains(out@[k1]) && out@.contains(out@[k2]));
                    assert(filtered@.to_multiset().count(out@[k1]) > 0);
                    assert(filtered@.contains(out@[k1]));
                    assert(filtered@.to_multiset().count(out@[k2]) > 0);
                    assert(filtered@.contains(out@[k2]));
                    let p1 = choose|p1: int|
                        0 <= p1 < filtered@.len() && filtered@[p1] == out@[k1];
                    let p2 = choose|p2: int|
                        0 <= p2 < filtered@.len() && filtered@[p2] == out@[k2];
                    assert(p1 != p2);
                    if p1 < p2 {
                        assert(!(filtered@[p1].key() == filtered@[p2].key()));
                    } else {
                        assert(!(filtered@[p2].key() == filtered@[p1].key()));
                    }
                    assert(false);
                }
            }
        }
    }
    out
}

/// Resolves a replayed manifest state against the files found on disk,
/// as done once at startup: every registered file must be present and
/// pass its checksum. A missing file is a fatal `CorruptManifest` error
/// for the partition; a failing checksum is `CorruptFile`. Either is
/// isolated to the partition being recovered.
#[verifier::rlimit(100)]
#[verifier::spinoff_prover]
pub fn resolve_version(state_files: &Vec<FileMeta>, disk: &Vec<ColumnFile>) -> (r: Result<
    Vec<ColumnFile>,
    Error,
>)
    ensures
        match r {
            Ok(files) => {
                &&& files@.len() == state_files@.len()
                &&& forall|j: int|
                    0 <= j < files@.len() ==> #[trigger] files@[j].file_id == state_files@[
                        j].file_id && files@[j].checksum == crate::tsm::rows_digest(
                        files@[j].rows@,
                    )
                &&& forall|j: int|
                    0 <= j < files@.len() ==> resolved_entry(
                        disk@,
                        state_files@[j],
                        #[trigger] files@[j],
                    )
            },
            Err(Error::CorruptManifest) => exists|j: int|
                0 <= j < state_files@.len() && !disk_has_id(
                    disk@,
                    (#[trigger] state_files@[j]).file_id,
                ),
            Err(Error::CorruptFile) => exists|k: int|
                0 <= k < disk@.len() && #[trigger] disk@[k].checksum != crate::tsm::rows_digest(
                    disk@[k].rows@,
                ),
            _ => false,
        },
        // success is owed when every registered file is on disk and every
        // disk file passes its checksum
        (forall|j: int|
            0 <= j < state_files@.len() ==> disk_has_id(
                disk@,
                (#[trigger] state_files@[j]).file_id,
            )) && (forall|k: int|
            0 <= k < disk@.len() ==> #[trigger] disk@[k].checksum == crate::tsm::rows_digest(
                disk@[k].rows@,
            )) ==> r is Ok,
{
    let mut out: Vec<ColumnFile> = Vec::new();
    let mut i: usize = 0;
    while i < state_files.len()
        invariant
            0 <= i <= state_files@.len(),
            out@.len() == i,
            forall|j: int|
                0 <= j < i ==> #[trigger] out@[j].file_id == state_files@[j].file_id && out@[
                    j].checksum == crate::tsm::rows_digest(out@[j].rows@),
            forall|j: int|
                0 <= j < i ==> resolved_entry(disk@, state_files@[j], #[trigger] out@[j]),
        decreases state_files@.len() - i,
    {
        let meta = state_files[i];
        match find_disk(disk, meta.file_id) {
            Some(k) => {
                if !disk[k].verify_checksum() {
                    return Err(Error::CorruptFile);
                }
                let ghost out0 = out@;
                out.push(disk[k].duplicate());
                proof {
                    assert(file_like(out@.last(), disk@[k as int]));
                    assert(resolved_entry(disk@, state_files@[i as int], out@.last()));
                    assert forall|j: int|
                        0 <= j < i + 1 implies resolved_entry(
                        disk@,
                        state_files@[j],
                        #[trigger] out@[j],
                    ) by {
                        if j < i as int {
                            assert(out@[j] == out0[j]);
                        } else {
                            assert(out@[j] == out@.last());
                        }
                    }
                }
            },
            None => {
                return Err(Error::CorruptManifest);
            },
        }
        i += 1;
    }
    Ok(out)
}

/// Finds the position of the file with the identifier among the files on
/// disk.
fn find_disk(disk: &Vec<ColumnFile>, id: u64) -> (r: Option<usize>)
    ensures
        match r {
            Some(k) => k < disk@.len() && disk@[k as int].file_id == id,
            None => !disk_has_id(disk@, id),
        },
{
    let mut k: usize = 0;
    while k < disk.len()
        invariant
            0 <= k <= disk@.len(),
            forall|j: int| 0 <= j < k ==> #[trigger] disk@[j].file_id != id,
        decreases disk@.len() - k,
    {
        if disk[k].file_id == id {
            return Some(k);
        }
        k += 1;
    }
    None
}

/// Whether `f` reproduces, in content, some disk file carrying the
/// registered identifier.
pub open spec fn resolved_entry(disk: Seq<ColumnFile>, meta: FileMeta, f: ColumnFile) -> bool {
    exists|k: int|
        0 <= k < disk.len() && #[trigger] disk[k].file_id == meta.file_id && file_like(f, disk[k])
}

/// Whether some file on disk carries the identifier.
pub open spec fn disk_has_id(disk: Seq<ColumnFile>, id: u64) -> bool {
    exists|k: int| 0 <= k < disk.len() && #[trigger] disk[k].file_id == id
}

/// Whether `sid` names a series of the table in some partition of the
/// database.
pub open spec fn table_series(
    series: Seq<SeriesEntry>,
    families: Seq<TsFamily>,
    tenant: Seq<char>,
    database: Seq<char>,
    table: Seq<char>,
    sid: u64,
) -> bool {
    table_series_upto(series, families, tenant, database, table, sid, series.len() as int)
}

/// [`table_series`] restricted to the first `bound` index entries.
pub open spec fn table_series_upto(
    series: Seq<SeriesEntry>,
    families: Seq<TsFamily>,
    tenant: Seq<char>,
    database: Seq<char>,
    table: Seq<char>,
    sid: u64,
    bound: int,
) -> bool {
    exists|j: int, fi: int|
        0 <= j < bound && j < series.len() && 0 <= fi < families.len()
            && #[trigger] series[j].series_id == sid && series[j].key.measurement@ == table
            && #[trigger] families[fi].id == series[j].vnode_id && families[fi].tenant@ == tenant
            && families[fi].database@ == database
}

/// Filtering rows with pairwise distinct coordinates keeps them
/// pairwise distinct.
pub proof fn lemma_filter_distinct_keys(s: Seq<Row>, pred: spec_fn(Row) -> bool)
    requires
        forall|k1: int, k2: int| 0 <= k1 < k2 < s.len() ==> !(s[k1].key() == s[k2].key()),
    ensures
        forall|k1: int, k2: int|
            0 <= k1 < k2 < s.filter(pred).len() ==> !(s.filter(pred)[k1].key() == s.filter(pred)[
                k2].key()),
    decreases s.len(),
{
    reveal(Seq::filter);
    if s.len() > 0 {
        let prefix = s.drop_last();
        assert forall|k1: int, k2: int|
            0 <= k1 < k2 < prefix.len() implies !(prefix[k1].key() == prefix[k2].key()) by {
            assert(prefix[k1] == s[k1] && prefix[k2] == s[k2]);
        }
        lemma_filter_distinct_keys(prefix, pred);
        let pf = prefix.filter(pred);
        if pred(s.last()) {
            assert(s.filter(pred) =~= pf.push(s.last())) by {
                reveal(Seq::filter);
            }
            assert forall|k1: int, k2: int|
                0 <= k1 < k2 < s.filter(pred).len() implies !(s.filter(pred)[k1].key() == s.filter(
                pred,
            )[k2].key()) by {
                if k2 == s.filter(pred).len() - 1 {
                    assert(s.filter(pred)[k1] == pf[k1]);
                    lemma_filter_elems(prefix, pred);
                    assert(prefix.contains(pf[k1]));
                    let w = choose|w: int| 0 <= w < prefix.len() && prefix[w] == pf[k1];
                    assert(s[w] == pf[k1] && s[s.len() - 1] == s.last());
                    assert(!(s[w].key() == s[s.len() - 1].key()));
                } else {
                    assert(s.filter(pred)[k1] == pf[k1] && s.filter(pred)[k2] == pf[k2]);
                }
            }
        }
    }
}

/// Every element a filter keeps occurs in the filtered sequence.
pub proof fn lemma_filter_elems<T>(s: Seq<T>, pred: spec_fn(T) -> bool)
    ensures
        forall|i: int|
            0 <= i < s.filter(pred).len() ==> s.contains(#[trigger] s.filter(pred)[i]),
    decreases s.len(),
{
    reveal(Seq::filter);
    if s.len() > 0 {
        let prefix = s.drop_last();
        lemma_filter_elems(prefix, pred);
        let pf = prefix.filter(pred);
        assert forall|i: int|
            0 <= i < s.filter(pred).len() implies s.contains(#[trigger] s.filter(pred)[i]) by {
            if pred(s.last()) {
                assert(s.filter(pred) =~= pf.push(s.last()));
                if i < pf.len() {
                    assert(prefix.contains(pf[i]));
                    let w = choose|w: int| 0 <= w < prefix.len() && prefix[w] == pf[i];
                    assert(s[w] == s.filter(pred)[i]);
                } else {
                    assert(s[s.len() - 1] == s.filter(pred)[i]);
                }
            } else {
                assert(s.filter(pred) == pf);
                assert(prefix.contains(pf[i]));
                let w = choose|w: int| 0 <= w < prefix.len() && prefix[w] == pf[i];
                assert(s[w] == s.filter(pred)[i]);
            }
        }
    }
}

/// Filtering a table list with pairwise distinct names keeps them
/// pairwise distinct.
pub proof fn lemma_filter_unique_tables(s: Seq<TableDef>, pred: spec_fn(TableDef) -> bool)
    requires
        tables_unique(s),
    ensures
        tables_unique(s.filter(pred)),
    decreases s.len(),
{
    reveal(Seq::filter);
    if s.len() > 0 {
        let prefix = s.drop_last();
        assert(tables_unique(prefix));
        lemma_filter_unique_tables(prefix, pred);
        let pf = prefix.filter(pred);
        if pred(s.last()) {
            assert(s.filter(pred) =~= pf.push(s.last())) by {
                reveal(Seq::filter);
            }
            assert forall|i: int, j: int|
                0 <= i < j < s.filter(pred).len() implies !(#[trigger] s.filter(pred)[i].tenant@
                == #[trigger] s.filter(pred)[j].tenant@ && s.filter(pred)[i].database@ == s.filter(
                pred,
            )[j].database@ && s.filter(pred)[i].table@ == s.filter(pred)[j].table@) by {
                if j == s.filter(pred).len() - 1 {
                    assert(s.filter(pred)[i] == pf[i]);
                    lemma_filter_elems(prefix, pred);
                    assert(prefix.contains(pf[i]));
                    let w = choose|w: int| 0 <= w < prefix.len() && prefix[w] == pf[i];
                    assert(!(s[w].tenant@ == s.last().tenant@ && s[w].database@
                        == s.last().database@ && s[w].table@ == s.last().table@));
                } else {
                    assert(s.filter(pred)[i] == pf[i] && s.filter(pred)[j] == pf[j]);
                }
            }
        }
    }
}

/// Filtering a family list with pairwise distinct ids keeps them
/// pairwise distinct.
pub proof fn lemma_filter_unique_ids(s: Seq<TsFamily>, pred: spec_fn(TsFamily) -> bool)
    requires
        families_unique(s),
    ensures
        families_unique(s.filter(pred)),
    decreases s.len(),
{
    reveal(Seq::filter);
    if s.len() > 0 {
        let prefix = s.drop_last();
        assert(families_unique(prefix));
        lemma_filter_unique_ids(prefix, pred);
        prefix.filter_lemma(pred);
        let pf = prefix.filter(pred);
        if pred(s.last()) {
            assert(s.filter(pred) =~= pf.push(s.last())) by {
                reveal(Seq::filter);
            }
            assert forall|i: int, j: int|
                0 <= i < j < s.filter(pred).len() implies #[trigger] s.filter(pred)[i].id
                != #[trigger] s.filter(pred)[j].id by {
                if j == s.filter(pred).len() - 1 {
                    assert(s.filter(pred)[i] == pf[i]);
                    lemma_filter_elems(prefix, pred);
                    assert(prefix.contains(pf[i]));
                    let w = choose|w: int| 0 <= w < prefix.len() && prefix[w] == pf[i];
                    assert(s[w].id != s.last().id);
                } else {
                    assert(s.filter(pred)[i] == pf[i] && s.filter(pred)[j] == pf[j]);
                }
            }
        }
    }
}

/// With pairwise distinct table names, the chosen table position is the
/// found one.
pub proof fn lemma_tbl_idx_agrees(
    tables: Seq<TableDef>,
    tenant: Seq<char>,
    database: Seq<char>,
    table: Seq<char>,
    i: int,
)
    requires
        tables_unique(tables),
        0 <= i < tables.len(),
        table_matches(tables[i], tenant, database, table),
    ensures
        has_table(tables, tenant, database, table),
        tbl_idx(tables, tenant, database, table) == i,
{
    assert(has_table(tables, tenant, database, table));
    let c = tbl_idx(tables, tenant, database, table);
    assert(0 <= c < tables.len() && table_matches(tables[c], tenant, database, table));
    if c != i {
        if c < i {
            assert(!(tables[c].tenant@ == tables[i].tenant@ && tables[c].database@
                == tables[i].database@ && tables[c].table@ == tables[i].table@));
        } else {
            assert(!(tables[i].tenant@ == tables[c].tenant@ && tables[i].database@
                == tables[c].database@ && tables[i].table@ == tables[c].table@));
        }
    }
}

/// With pairwise distinct ids, the chosen family position is the found
/// one.
pub proof fn lemma_fam_idx_agrees(families: Seq<TsFamily>, id: u32, i: int)
    requires
        families_unique(families),
        0 <= i < families.len(),
        families[i].id == id,
    ensures
        fam_idx(families, id) == i,
{
    assert(has_family(families, id));
    let c = fam_idx(families, id);
    assert(0 <= c < families.len() && families[c].id == id);
    if c != i {
        if c < i {
            assert(families[c].id != families[i].id);
        } else {
            assert(families[i].id != families[c].id);
        }
    }
}

} // verus!
