use tskv::error::Error;
use tskv::kvcore::{read_version, resolve_version, Precision, StorageOptions, TsKv};
use tskv::memcache::MutableBuffer;
use tskv::summary::{FileMeta, VersionEdit, VersionState};
use tskv::tseries_family::TsFamily;
use tskv::tsm::ColumnFile;
use tskv::types::{Point, Row, SeriesKey, TableSchema, Tag, TimeRange};
use tskv::wal::Wal;
use tskv::{tenant_name_from_request, WriteMeta, WritePointsRequest};

fn opts() -> StorageOptions {
    StorageOptions { wal_segment_size: 1024, buffer_threshold: 64, compaction_file_limit: 4 }
}

fn point(series_id: u64, ts: i64, column_id: u64, value: i64) -> Point {
    Point { series_id, ts, column_id, value }
}

fn engine_with_vnode() -> TsKv {
    let mut kv = TsKv::new(opts());
    let tenant = "cnosdb".to_string();
    let db = "db1".to_string();
    kv.open_tsfamily(&tenant, &db, 1);
    kv.create_table(
        &tenant,
        &db,
        &"cpu".to_string(),
        TableSchema { schema_version: 1, columns: vec![1, 2] },
    );
    kv
}

fn req(table: &str, points: Vec<Point>) -> WritePointsRequest {
    WritePointsRequest {
        meta: Some(WriteMeta { tenant: "cnosdb".to_string() }),
        table: table.to_string(),
        points,
    }
}

#[test]
fn tenant_name_comes_from_meta_or_default() {
    let with_meta = req("cpu", vec![]);
    assert_eq!(tenant_name_from_request(&with_meta), "cnosdb");
    let named = WritePointsRequest {
        meta: Some(WriteMeta { tenant: "acme".to_string() }),
        table: "cpu".to_string(),
        points: vec![],
    };
    assert_eq!(tenant_name_from_request(&named), "acme");
    let bare = WritePointsRequest { meta: None, table: "cpu".to_string(), points: vec![] };
    assert_eq!(tenant_name_from_request(&bare), "cnosdb");
}

#[test]
fn crash_replay_restores_buffer_and_sequence() {
    // write points for one series at timestamps 1,2,3 with sequences 10,11,12;
    // crash before flush; replay the WAL; the buffer holds exactly those rows
    // and the next assigned sequence number is 13.
    let mut fam = TsFamily::new(1, "cnosdb".to_string(), "db1".to_string(), 64);
    fam.write_from_wal(&vec![], 9); // recovered checkpoint watermark
    for ts in [1i64, 2, 3] {
        let seq = fam.write(&vec![point(7, ts, 1, ts * 10)]);
        assert_eq!(seq as i64, 9 + ts);
    }
    assert_eq!(fam.buffer.rows.len(), 3);

    // simulated crash: only the WAL survives
    let records = fam.wal.replay(9);
    let mut recovered = TsFamily::new(1, "cnosdb".to_string(), "db1".to_string(), 64);
    recovered.write_from_wal(&vec![], 9);
    recovered.replay_wal(&records);

    assert_eq!(recovered.buffer.rows.len(), 3);
    for (i, ts) in [1i64, 2, 3].iter().enumerate() {
        let row = recovered.buffer.rows[i];
        assert_eq!(row, Row { series_id: 7, ts: *ts, column_id: 1, value: ts * 10, seq: 9 + *ts as u64 });
    }
    let next = recovered.write(&vec![point(7, 4, 1, 40)]);
    assert_eq!(next, 13);
}

#[test]
fn replaying_twice_changes_nothing() {
    let mut fam = TsFamily::new(1, "t".to_string(), "d".to_string(), 64);
    let batch = vec![point(1, 5, 1, 50), point(1, 6, 1, 60)];
    fam.write_from_wal(&batch, 4);
    let rows_once = fam.buffer.rows.clone();
    let seq_once = fam.last_seq;
    fam.write_from_wal(&batch, 4);
    assert_eq!(fam.buffer.rows, rows_once);
    assert_eq!(fam.last_seq, seq_once);
}

#[test]
fn wal_truncation_keeps_later_records() {
    let mut wal = Wal::new();
    wal.append(&vec![point(1, 1, 1, 1)], 1);
    wal.append(&vec![point(1, 2, 1, 2)], 2);
    wal.append(&vec![point(1, 3, 1, 3)], 3);
    wal.truncate(2);
    let rest = wal.replay(0);
    assert_eq!(rest.len(), 1);
    assert_eq!(rest[0].seq, 3);
    let after = wal.replay(2);
    assert_eq!(after.len(), 1);
    assert_eq!(after[0].seq, 3);
}

#[test]
fn flush_of_empty_buffer_is_a_no_op() {
    let mut kv = engine_with_vnode();
    let tenant = "cnosdb".to_string();
    let db = "db1".to_string();
    let manifest_before = kv.manifest.len();
    assert_eq!(kv.flush_tsfamily(&tenant, &db, 1), Ok(()));
    assert_eq!(kv.manifest.len(), manifest_before);
    assert_eq!(kv.next_file_id, 1);
}

#[test]
fn flush_moves_buffer_into_a_file_and_records_an_edit() {
    let mut kv = engine_with_vnode();
    let tenant = "cnosdb".to_string();
    let db = "db1".to_string();
    let seq = kv.write(1, Precision::Ns, &req("cpu", vec![point(7, 1, 1, 10)])).unwrap();
    assert_eq!(seq, 1);
    assert_eq!(kv.flush_tsfamily(&tenant, &db, 1), Ok(()));
    assert_eq!(kv.manifest.len(), 1);
    assert_eq!(kv.manifest[0].vnode_id, 1);
    assert_eq!(kv.manifest[0].adds.len(), 1);
    assert_eq!(kv.manifest[0].max_seq, 1);
    let fam = &kv.families[0];
    assert_eq!(fam.buffer.rows.len(), 0);
    assert_eq!(fam.files.len(), 1);
    assert!(fam.files[0].verify_checksum());
}

#[test]
fn unknown_partition_is_not_found() {
    let mut kv = engine_with_vnode();
    match kv.write(99, Precision::Ns, &req("cpu", vec![point(1, 1, 1, 1)])) {
        Err(Error::NotFound) => {}
        other => panic!("expected NotFound, got {:?}", other),
    }
}

#[test]
fn out_of_schema_column_is_rejected() {
    let mut kv = engine_with_vnode();
    match kv.write(1, Precision::Ns, &req("cpu", vec![point(1, 1, 99, 1)])) {
        Err(Error::SchemaMismatch) => {}
        other => panic!("expected SchemaMismatch, got {:?}", other),
    }
    // the buffer stays untouched
    assert_eq!(kv.families[0].buffer.rows.len(), 0);
}

#[test]
fn exhausted_sequence_space_is_a_durability_error() {
    let mut kv = engine_with_vnode();
    kv.write_from_wal(1, Precision::Ns, &req("cpu", vec![]), u64::MAX).unwrap();
    match kv.write(1, Precision::Ns, &req("cpu", vec![point(1, 1, 1, 1)])) {
        Err(Error::DurabilityError) => {}
        other => panic!("expected DurabilityError, got {:?}", other),
    }
}

#[test]
fn retryable_errors_are_classified() {
    assert!(Error::CompactionFailed.is_retryable());
    assert!(Error::IoError.is_retryable());
    assert!(!Error::CorruptManifest.is_retryable());
    assert!(!Error::NotFound.is_retryable());
}

#[test]
fn compaction_resolves_duplicates_and_tombstones() {
    let mut kv = engine_with_vnode();
    let tenant = "cnosdb".to_string();
    let db = "db1".to_string();
    // first file: series 7, ts 1 and 2
    kv.write(1, Precision::Ns, &req("cpu", vec![point(7, 1, 1, 100), point(7, 2, 1, 200)]))
        .unwrap();
    kv.flush_tsfamily(&tenant, &db, 1).unwrap();
    // second file: overwrites ts 1, adds ts 3
    kv.write(1, Precision::Ns, &req("cpu", vec![point(7, 1, 1, 111), point(7, 3, 1, 300)]))
        .unwrap();
    kv.flush_tsfamily(&tenant, &db, 1).unwrap();
    // tombstone ts 3
    kv.delete_series(
        &tenant,
        &db,
        &vec![7],
        &vec![1],
        &TimeRange { min_ts: 3, max_ts: 3 },
    )
    .unwrap();
    assert_eq!(kv.compact_vnode(1), Ok(()));
    let fam = &kv.families[0];
    assert_eq!(fam.files.len(), 1);
    let rows = &fam.files[0].rows;
    assert_eq!(rows.len(), 2);
    // last write wins for ts 1, ts 2 survives, ts 3 is gone
    assert_eq!(rows[0], Row { series_id: 7, ts: 1, column_id: 1, value: 111, seq: 2 });
    assert_eq!(rows[1], Row { series_id: 7, ts: 2, column_id: 1, value: 200, seq: 1 });
    // the edit removed both inputs and added the merged output
    let last_edit = kv.manifest.last().unwrap();
    assert_eq!(last_edit.removes.len(), 2);
    assert_eq!(last_edit.adds.len(), 1);
}

#[test]
fn snapshot_survives_concurrent_flush() {
    let mut kv = engine_with_vnode();
    let tenant = "cnosdb".to_string();
    let db = "db1".to_string();
    kv.write(1, Precision::Ns, &req("cpu", vec![point(7, 1, 1, 10)])).unwrap();
    let sv = kv.get_db_version(&tenant, &db, 1).unwrap().expect("snapshot");
    let before = read_version(&sv, 7, TimeRange { min_ts: i64::MIN, max_ts: i64::MAX });
    // the engine moves on: more writes, a flush, a compaction
    kv.write(1, Precision::Ns, &req("cpu", vec![point(7, 2, 1, 20)])).unwrap();
    kv.flush_tsfamily(&tenant, &db, 1).unwrap();
    kv.compact_vnode(1).unwrap();
    let after = read_version(&sv, 7, TimeRange { min_ts: i64::MIN, max_ts: i64::MAX });
    assert_eq!(before, after);
    assert_eq!(before.len(), 1);
    assert_eq!(before[0].value, 10);
    // a fresh snapshot sees the new row as well
    let sv2 = kv.get_db_version(&tenant, &db, 1).unwrap().expect("snapshot");
    let now = read_version(&sv2, 7, TimeRange { min_ts: i64::MIN, max_ts: i64::MAX });
    assert_eq!(now.len(), 2);
}

#[test]
fn vnode_summary_round_trips_through_replay() {
    let mut kv = engine_with_vnode();
    let tenant = "cnosdb".to_string();
    let db = "db1".to_string();
    kv.write(1, Precision::Ns, &req("cpu", vec![point(7, 1, 1, 10)])).unwrap();
    kv.flush_tsfamily(&tenant, &db, 1).unwrap();
    kv.write(1, Precision::Ns, &req("cpu", vec![point(7, 2, 1, 20)])).unwrap();
    kv.flush_tsfamily(&tenant, &db, 1).unwrap();

    let summary = kv.get_vnode_summary(&tenant, &db, 1).unwrap().expect("summary");
    // replaying the two manifest edits equals replaying the single summary:
    // the checkpointed state stands in for the history before it
    let mut from_log = VersionState::new();
    for e in &kv.manifest {
        if e.vnode_id == 1 {
            from_log.apply_edit(&e.duplicate());
        }
    }
    let mut from_summary = VersionState::new();
    from_summary.apply_edit(&summary);
    assert_eq!(from_log.files, from_summary.files);
    assert_eq!(from_log.last_seq, from_summary.last_seq);
}

#[test]
fn stale_summary_is_rejected() {
    let mut kv = engine_with_vnode();
    let tenant = "cnosdb".to_string();
    let db = "db1".to_string();
    kv.write_from_wal(1, Precision::Ns, &req("cpu", vec![]), 50).unwrap();
    let stale = VersionEdit { vnode_id: 1, adds: vec![], removes: vec![], max_seq: 10 };
    match kv.apply_vnode_summary(&tenant, &db, 1, &stale) {
        Err(Error::CompactionFailed) => {}
        other => panic!("expected CompactionFailed, got {:?}", other),
    }
    let fresh = VersionEdit { vnode_id: 1, adds: vec![], removes: vec![], max_seq: 60 };
    assert_eq!(kv.apply_vnode_summary(&tenant, &db, 1, &fresh), Ok(()));
    assert_eq!(kv.families[0].last_seq, 60);
}

#[test]
fn recovery_rejects_missing_and_corrupt_files() {
    let file = ColumnFile::write_blocks(3, 1, &vec![Row {
        series_id: 1,
        ts: 1,
        column_id: 1,
        value: 5,
        seq: 1,
    }]);
    let meta = FileMeta { file_id: 3, time_range: file.time_range, schema_version: 1 };
    // present and intact
    assert!(resolve_version(&vec![meta], &vec![file.duplicate()]).is_ok());
    // missing from disk
    match resolve_version(&vec![meta], &vec![]) {
        Err(Error::CorruptManifest) => {}
        other => panic!("expected CorruptManifest, got {:?}", other),
    }
    // present but corrupted
    let mut bad = file.duplicate();
    bad.checksum = bad.checksum.wrapping_add(1);
    assert!(!bad.verify_checksum());
    match resolve_version(&vec![meta], &vec![bad]) {
        Err(Error::CorruptFile) => {}
        other => panic!("expected CorruptFile, got {:?}", other),
    }
}

#[test]
fn buffer_reads_merge_in_timestamp_order() {
    let mut buf = MutableBuffer::new(16);
    buf.insert_batch(&vec![point(1, 5, 1, 50), point(1, 1, 1, 10), point(2, 3, 1, 30)], 1);
    buf.insert_batch(&vec![point(1, 3, 1, 31)], 2);
    let rows = buf.read_range(1, TimeRange { min_ts: 1, max_ts: 4 });
    assert_eq!(rows.len(), 2);
    assert_eq!((rows[0].ts, rows[0].value), (1, 10));
    assert_eq!((rows[1].ts, rows[1].value), (3, 31));
    assert!(buf.exceeds_threshold() == false);
}

#[test]
fn schema_evolution_changes_one_table() {
    let mut kv = engine_with_vnode();
    let tenant = "cnosdb".to_string();
    let db = "db1".to_string();
    let table = "cpu".to_string();
    assert_eq!(kv.add_table_column(&tenant, &db, &table, 3), Ok(()));
    assert_eq!(kv.tables[0].schema.columns, vec![1, 2, 3]);
    assert_eq!(kv.tables[0].schema.schema_version, 2);
    assert_eq!(kv.add_table_column(&tenant, &db, &table, 3), Err(Error::SchemaMismatch));
    assert_eq!(kv.drop_table_column(&tenant, &db, &table, 2), Ok(()));
    assert_eq!(kv.tables[0].schema.columns, vec![1, 3]);
    assert_eq!(kv.change_table_column(&tenant, &db, &table, 3, 4), Ok(()));
    assert_eq!(kv.tables[0].schema.columns, vec![1, 4]);
    assert_eq!(
        kv.drop_table_column(&tenant, &db, &"nope".to_string(), 1),
        Err(Error::NotFound)
    );
}

#[test]
fn series_lookup_by_id_and_filter() {
    let mut kv = engine_with_vnode();
    let tenant = "cnosdb".to_string();
    let db = "db1".to_string();
    let table = "cpu".to_string();
    let key = SeriesKey {
        measurement: "cpu".to_string(),
        tags: vec![
            Tag { key: "host".to_string(), value: "a".to_string() },
            Tag { key: "region".to_string(), value: "eu".to_string() },
        ],
    };
    kv.add_series(1, 7, key);
    kv.add_series(
        1,
        8,
        SeriesKey {
            measurement: "cpu".to_string(),
            tags: vec![Tag { key: "host".to_string(), value: "b".to_string() }],
        },
    );
    let got = kv.get_series_key(&tenant, &db, 1, 7).unwrap().expect("series key");
    assert_eq!(got.measurement, "cpu");
    assert_eq!(got.tags.len(), 2);
    assert!(kv.get_series_key(&tenant, &db, 1, 99).unwrap().is_none());

    let filter = vec![Tag { key: "host".to_string(), value: "a".to_string() }];
    let ids = kv.get_series_id_by_filter(&tenant, &db, &table, 1, &filter).unwrap();
    assert_eq!(ids, vec![7]);
    let all = kv.get_series_id_by_filter(&tenant, &db, &table, 1, &vec![]).unwrap();
    assert_eq!(all, vec![7, 8]);
}

#[test]
fn drop_table_hides_its_series() {
    let mut kv = engine_with_vnode();
    let tenant = "cnosdb".to_string();
    let db = "db1".to_string();
    kv.add_series(
        1,
        7,
        SeriesKey { measurement: "cpu".to_string(), tags: vec![] },
    );
    kv.write(1, Precision::Ns, &req("cpu", vec![point(7, 1, 1, 10)])).unwrap();
    assert_eq!(kv.drop_table(&tenant, &db, &"cpu".to_string()), Ok(()));
    assert_eq!(kv.tables.len(), 0);
    let sv = kv.get_db_version(&tenant, &db, 1).unwrap().expect("snapshot");
    let rows = read_version(&sv, 7, TimeRange { min_ts: i64::MIN, max_ts: i64::MAX });
    assert_eq!(rows.len(), 0);
}

#[test]
fn drop_database_removes_its_partitions() {
    let mut kv = engine_with_vnode();
    let tenant = "cnosdb".to_string();
    let db = "db1".to_string();
    kv.open_tsfamily(&tenant, &"db2".to_string(), 2);
    assert_eq!(kv.drop_database(&tenant, &db), Ok(()));
    assert_eq!(kv.families.len(), 1);
    assert_eq!(kv.families[0].id, 2);
    // the database's table definitions leave with it
    assert_eq!(kv.tables.len(), 0);
    match kv.write(1, Precision::Ns, &req("cpu", vec![point(1, 1, 1, 1)])) {
        Err(Error::NotFound) => {}
        other => panic!("expected NotFound after drop, got {:?}", other),
    }
}

#[test]
fn drop_vnode_forgets_the_partition() {
    let mut kv = engine_with_vnode();
    assert_eq!(kv.drop_vnode(1), Ok(()));
    assert_eq!(kv.families.len(), 0);
    assert_eq!(kv.drop_vnode(1), Err(Error::NotFound));
}

#[test]
fn remove_tsfamily_checks_names() {
    let mut kv = engine_with_vnode();
    let tenant = "cnosdb".to_string();
    assert_eq!(
        kv.remove_tsfamily(&tenant, &"other".to_string(), 1),
        Err(Error::NotFound)
    );
    assert_eq!(kv.remove_tsfamily(&tenant, &"db1".to_string(), 1), Ok(()));
    assert_eq!(kv.families.len(), 0);
}

#[test]
fn hash_tree_detects_divergence() {
    let mut kv = engine_with_vnode();
    let tenant = "cnosdb".to_string();
    let db = "db1".to_string();
    kv.write(1, Precision::Ns, &req("cpu", vec![point(7, 1, 1, 10)])).unwrap();
    kv.flush_tsfamily(&tenant, &db, 1).unwrap();
    let h1 = kv.get_vnode_hash_tree(1).unwrap();
    assert_eq!(h1.vnode_id, 1);
    assert_eq!(h1.file_digests.len(), 1);
    kv.write(1, Precision::Ns, &req("cpu", vec![point(7, 2, 1, 20)])).unwrap();
    let h2 = kv.get_vnode_hash_tree(1).unwrap();
    assert_ne!(h1.root, h2.root);
    assert_eq!(kv.get_vnode_hash_tree(9).unwrap_err(), Error::NotFound);
}

#[test]
fn close_flushes_everything_and_is_idempotent() {
    let mut kv = engine_with_vnode();
    kv.write(1, Precision::Ns, &req("cpu", vec![point(7, 1, 1, 10)])).unwrap();
    assert_eq!(kv.close(), Ok(()));
    assert!(kv.closed);
    assert_eq!(kv.families[0].buffer.rows.len(), 0);
    let files = kv.families[0].files.len();
    assert_eq!(kv.close(), Ok(()));
    assert_eq!(kv.families[0].files.len(), files);
}

#[test]
fn prepare_copy_flushes_the_partition() {
    let mut kv = engine_with_vnode();
    let tenant = "cnosdb".to_string();
    let db = "db1".to_string();
    kv.write(1, Precision::Ns, &req("cpu", vec![point(7, 1, 1, 10)])).unwrap();
    assert_eq!(kv.prepare_copy_vnode(&tenant, &db, 1), Ok(()));
    assert_eq!(kv.families[0].buffer.rows.len(), 0);
}

#[test]
fn storage_options_are_reported() {
    let kv = TsKv::new(opts());
    let o = kv.get_storage_options();
    assert_eq!(o.wal_segment_size, 1024);
    assert_eq!(o.buffer_threshold, 64);
}

#[test]
fn write_checks_tenant_ownership() {
    let mut kv = engine_with_vnode();
    let foreign = WritePointsRequest {
        meta: Some(WriteMeta { tenant: "acme".to_string() }),
        table: "cpu".to_string(),
        points: vec![point(1, 1, 1, 1)],
    };
    match kv.write(1, Precision::Ns, &foreign) {
        Err(Error::NotFound) => {}
        other => panic!("expected NotFound for a foreign tenant, got {:?}", other),
    }
}

#[test]
fn series_lookup_checks_names() {
    let mut kv = engine_with_vnode();
    kv.add_series(1, 7, SeriesKey { measurement: "cpu".to_string(), tags: vec![] });
    let tenant = "cnosdb".to_string();
    match kv.get_series_key(&tenant, &"otherdb".to_string(), 1, 7) {
        Err(Error::NotFound) => {}
        other => panic!("expected NotFound for a wrong database, got {:?}", other),
    }
    match kv.get_series_id_by_filter(&"acme".to_string(), &"db1".to_string(), &"cpu".to_string(), 1, &vec![]) {
        Err(Error::NotFound) => {}
        other => panic!("expected NotFound for a wrong tenant, got {:?}", other),
    }
}

#[test]
fn compaction_policy_consults_the_file_limit() {
    let mut kv = engine_with_vnode();
    let tenant = "cnosdb".to_string();
    let db = "db1".to_string();
    assert!(!kv.needs_compaction(1));
    for ts in 1..=4i64 {
        kv.write(1, Precision::Ns, &req("cpu", vec![point(7, ts, 1, ts)])).unwrap();
        kv.flush_tsfamily(&tenant, &db, 1).unwrap();
    }
    // four files reach the configured limit
    assert!(kv.needs_compaction(1));
    kv.compact_vnode(1).unwrap();
    assert!(!kv.needs_compaction(1));
    assert!(!kv.needs_compaction(99));
    assert!(!kv.wal_rollover_due(1));
    assert!(!kv.wal_rollover_due(99));
}
