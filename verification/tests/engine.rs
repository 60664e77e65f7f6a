use velocity::engine::{filter_bits_for, StoredFile, Velocity, VelocityConfig};
use velocity::naming::sstable_file_name;
use velocity::{VeloError, WalSyncMode};

fn b(s: &str) -> Vec<u8> {
    s.as_bytes().to_vec()
}

fn small_config() -> VelocityConfig {
    let mut config = VelocityConfig::default();
    config.max_memtable_size = 100;
    config.cache_size = 8;
    config
}

/// Logs every waiting write and returns the bytes that reached the file.
fn drain(engine: &mut Velocity) -> Vec<u8> {
    let mut stamp = 1_700_000_000u64;
    while engine.pending_writes() > 0 {
        engine.process_writes(stamp, 0);
        stamp += 1;
    }
    engine.sync_log();
    let wal = engine.wal();
    wal.bytes()[..wal.flushed()].to_vec()
}

/// The files that a directory holds after the engine's runs were written.
fn run_files(engine: &Velocity) -> Vec<StoredFile> {
    engine
        .sstables()
        .iter()
        .map(|t| StoredFile { name: sstable_file_name(t.id()), bytes: t.data().clone() })
        .collect()
}

#[test]
fn basic_put_get() {
    let mut db = Velocity::new(small_config());
    db.put(b("user:1"), b("alice")).unwrap();
    assert_eq!(db.get(b"user:1").unwrap(), Some(b("alice")));
    assert_eq!(db.get(b"user:2").unwrap(), None);
}

#[test]
fn overwrite_keeps_one_entry() {
    let mut db = Velocity::new(small_config());
    db.put(b("k"), b("v1")).unwrap();
    db.put(b("k"), b("v2")).unwrap();
    assert_eq!(db.get(b"k").unwrap(), Some(b("v2")));
    assert_eq!(db.stats().memtable_entries, 1);
}

#[test]
fn tombstone_shadows_sstable() {
    let mut db = Velocity::new(small_config());
    db.put(b("k"), b("v")).unwrap();
    db.flush().unwrap();
    db.delete(b("k")).unwrap();
    assert_eq!(db.get(b"k").unwrap(), None);
    assert_eq!(db.stats().sstable_count, 1);
}

#[test]
fn flushed_tombstone_shadows_older_sstable() {
    let mut db = Velocity::new(small_config());
    db.put(b("k"), b("v")).unwrap();
    db.put(b("other"), b("x")).unwrap();
    db.flush().unwrap();
    db.delete(b("k")).unwrap();
    db.flush().unwrap();
    db.close().unwrap();
    assert_eq!(db.stats().sstable_count, 2);
    assert_eq!(db.get(b"k").unwrap(), None);
    assert_eq!(db.get(b"other").unwrap(), Some(b("x")));
    assert_eq!(db.scan(10), vec![(b("other"), b("x"))]);
}

#[test]
fn recovery_from_the_log() {
    let mut db = Velocity::new(VelocityConfig::default());
    for i in 0..1000 {
        db.put(b(&format!("key_{:04}", i)), b(&format!("val_{}", i))).unwrap();
    }
    let wal = drain(&mut db);
    let files = run_files(&db);
    drop(db);

    let mut db = Velocity::open_with_config(wal, &files, VelocityConfig::default()).unwrap();
    assert_eq!(db.get(b"key_0500").unwrap(), Some(b("val_500")));
    assert_eq!(db.stats().sstable_count, 0);
    assert_eq!(db.stats().memtable_entries, 1000);
}

#[test]
fn flush_then_recover() {
    let mut db = Velocity::new(VelocityConfig::default());
    for i in 0..1000 {
        db.put(b(&format!("key_{:04}", i)), b(&format!("val_{}", i))).unwrap();
    }
    drain(&mut db);
    db.flush().unwrap();
    let wal = drain(&mut db);
    assert_eq!(wal.len(), 0);
    let files = run_files(&db);
    assert_eq!(files.len(), 1);
    assert_eq!(files[0].name, b("sstable_000001.vdb"));
    drop(db);

    let mut db = Velocity::open_with_config(wal, &files, VelocityConfig::default()).unwrap();
    let stats = db.stats();
    assert_eq!(stats.sstable_count, 1);
    assert_eq!(stats.memtable_entries, 0);
    assert_eq!(db.wal().buffer_size(), 0);
    assert_eq!(db.get(b"key_0500").unwrap(), Some(b("val_500")));
    assert_eq!(db.get(b"key_0000").unwrap(), Some(b("val_0")));
    assert_eq!(db.get(b"key_0999").unwrap(), Some(b("val_999")));
    assert_eq!(db.get(b"key_1000").unwrap(), None);
}

#[test]
fn torn_log_reopens_on_its_whole_records() {
    let mut db = Velocity::new(small_config());
    for i in 0..10 {
        db.put(b(&format!("k{}", i)), b(&format!("v{}", i))).unwrap();
    }
    let mut wal = drain(&mut db);
    wal.truncate(wal.len() - 5);

    let report = db.wal_integrity_report(&wal).unwrap();
    assert_eq!(report.total_records, 9);
    assert_eq!(report.truncated_records, 1);
    assert_eq!(report.corrupted_records, 0);
    assert!(report.corrupted_keys.is_empty());

    let mut reopened = Velocity::open_with_config(wal.clone(), &Vec::new(), small_config()).unwrap();
    assert_eq!(reopened.stats().memtable_entries, 9);
    for i in 0..9 {
        assert_eq!(reopened.get(format!("k{}", i).as_bytes()).unwrap(), Some(b(&format!("v{}", i))));
    }
    assert_eq!(reopened.get(b"k9").unwrap(), None);
    // The torn tail is dropped from the log that the engine goes on with.
    assert!(reopened.wal().buffer_size() < wal.len());
}

#[test]
fn last_write_wins_over_a_sequence() {
    let mut db = Velocity::new(small_config());
    db.put(b("a"), b("1")).unwrap();
    db.put(b("b"), b("2")).unwrap();
    db.delete(b("a")).unwrap();
    db.put(b("c"), b("3")).unwrap();
    db.flush().unwrap();
    db.put(b("a"), b("4")).unwrap();
    db.delete(b("b")).unwrap();
    db.put(b("c"), b("5")).unwrap();
    db.put(b("c"), b("6")).unwrap();
    assert_eq!(db.get(b"a").unwrap(), Some(b("4")));
    assert_eq!(db.get(b"b").unwrap(), None);
    assert_eq!(db.get(b"c").unwrap(), Some(b("6")));
    // Again, now that the cache has seen the keys.
    assert_eq!(db.get(b"a").unwrap(), Some(b("4")));
    assert_eq!(db.get(b"b").unwrap(), None);
    assert_eq!(db.get(b"c").unwrap(), Some(b("6")));
}

#[test]
fn delete_is_seen_through_the_cache() {
    let mut db = Velocity::new(small_config());
    db.put(b("k"), b("v")).unwrap();
    assert_eq!(db.get(b"k").unwrap(), Some(b("v")));
    db.delete(b("k")).unwrap();
    assert_eq!(db.get(b"k").unwrap(), None);
}

#[test]
fn flush_empties_memtable_and_log() {
    let mut db = Velocity::new(small_config());
    db.put(b("a"), b("1")).unwrap();
    db.put(b("b"), b("2")).unwrap();
    drain(&mut db);
    assert!(db.wal().buffer_size() > 0);
    db.flush().unwrap();
    assert_eq!(db.stats().memtable_entries, 0);
    assert_eq!(db.wal().buffer_size(), 0);
    assert_eq!(db.wal().flushed(), 0);
    assert_eq!(db.stats().sstable_count, 1);
    assert_eq!(db.get(b"a").unwrap(), Some(b("1")));
}

#[test]
fn absent_key_reads_as_not_found() {
    let mut db = Velocity::new(small_config());
    db.put(b("present"), b("1")).unwrap();
    db.flush().unwrap();
    db.put(b("also"), b("2")).unwrap();
    assert_eq!(db.get(b"absent").unwrap(), None);
    assert_eq!(db.get(b"").unwrap(), None);
    assert_eq!(db.get(b"presen").unwrap(), None);
    assert_eq!(db.get(b"present0").unwrap(), None);
}

#[test]
fn flush_on_empty_memtable_is_a_no_op() {
    let mut db = Velocity::new(small_config());
    db.flush().unwrap();
    assert_eq!(db.stats().sstable_count, 0);
    db.put(b("a"), b("1")).unwrap();
    db.flush().unwrap();
    db.flush().unwrap();
    assert_eq!(db.stats().sstable_count, 1);
    assert_eq!(db.stats().memtable_entries, 0);
}

#[test]
fn close_twice_is_ok() {
    let mut db = Velocity::new(small_config());
    db.put(b("a"), b("1")).unwrap();
    assert_eq!(db.get(b"a").unwrap(), Some(b("1")));
    assert_eq!(db.stats().cache_entries, 1);
    assert_eq!(db.close(), Ok(()));
    assert_eq!(db.stats().sstable_count, 1);
    assert_eq!(db.stats().cache_entries, 0);
    assert_eq!(db.close(), Ok(()));
    assert_eq!(db.stats().sstable_count, 1);
    assert_eq!(db.get(b"a").unwrap(), Some(b("1")));
}

#[test]
fn sstable_ids_increase() {
    let mut db = Velocity::new(small_config());
    for round in 0..3 {
        db.put(b(&format!("k{}", round)), b("v")).unwrap();
        db.flush().unwrap();
    }
    let ids: Vec<u64> = db.sstables().iter().map(|t| t.id()).collect();
    assert_eq!(ids, vec![1, 2, 3]);
}

#[test]
fn newest_sstable_wins() {
    let mut db = Velocity::new(small_config());
    db.put(b("k"), b("old")).unwrap();
    db.flush().unwrap();
    db.put(b("k"), b("new")).unwrap();
    db.flush().unwrap();
    db.close().unwrap();
    assert_eq!(db.get(b"k").unwrap(), Some(b("new")));
}

#[test]
fn scan_merges_all_tiers_in_key_order() {
    let mut db = Velocity::new(small_config());
    db.put(b("d"), b("4")).unwrap();
    db.put(b("b"), b("2")).unwrap();
    db.flush().unwrap();
    db.put(b("a"), b("1")).unwrap();
    db.put(b("b"), b("two")).unwrap();
    db.flush().unwrap();
    db.put(b("c"), b("3")).unwrap();
    db.delete(b("d")).unwrap();
    assert_eq!(
        db.scan(10),
        vec![(b("a"), b("1")), (b("b"), b("two")), (b("c"), b("3"))]
    );
    assert_eq!(db.scan(2), vec![(b("a"), b("1")), (b("b"), b("two"))]);
    assert_eq!(db.scan(0), Vec::<(Vec<u8>, Vec<u8>)>::new());
}

#[test]
fn stats_count_every_tier() {
    let mut db = Velocity::new(small_config());
    db.put(b("ab"), b("cde")).unwrap();
    db.put(b("x"), b("")).unwrap();
    db.flush().unwrap();
    db.put(b("key"), b("value")).unwrap();
    let stats = db.stats();
    assert_eq!(stats.memtable_entries, 1);
    assert_eq!(stats.sstable_count, 1);
    // Two entries: 2 + 2 + 4 + 3 bytes and 2 + 1 + 4 + 0 bytes.
    assert_eq!(stats.total_sstable_size, 18);
    assert_eq!(stats.total_records, 3);
    // The memtable accounts for the key, the value and 32 bytes an entry.
    assert_eq!(stats.total_size_bytes, 18 + 3 + 5 + 32);
    assert_eq!(stats.cache_entries, 3);
}

#[test]
fn put_refuses_an_oversized_key() {
    let mut db = Velocity::new(small_config());
    let result = db.put(vec![7u8; 65536], b("v"));
    assert_eq!(result, Err(VeloError::InvalidOperation("key or value too large".to_string())));
    assert_eq!(db.stats().memtable_entries, 0);
    assert_eq!(db.pending_writes(), 0);
    assert_eq!(db.put(vec![7u8; 65535], b("v")), Ok(()));
    assert_eq!(db.stats().memtable_entries, 1);
}

#[test]
fn put_fails_on_a_closed_queue() {
    let mut db = Velocity::new(small_config());
    db.put(b("a"), b("1")).unwrap();
    db.close_queue();
    let result = db.put(b("b"), b("2"));
    assert_eq!(result, Err(VeloError::InvalidOperation("queue closed".to_string())));
    // The write reached the memtable before the queue refused it.
    assert_eq!(db.get(b"b").unwrap(), Some(b("2")));
    assert_eq!(db.pending_writes(), 1);
}

#[test]
fn put_batch_stops_at_the_first_failure() {
    let mut db = Velocity::new(small_config());
    let ops = vec![(b("a"), b("1")), (vec![0u8; 70000], b("x")), (b("c"), b("3"))];
    assert!(matches!(db.put_batch(ops), Err(VeloError::InvalidOperation(_))));
    assert_eq!(db.get(b"a").unwrap(), Some(b("1")));
    assert_eq!(db.get(b"c").unwrap(), None);
    assert_eq!(db.put_batch(vec![(b("c"), b("3")), (b("d"), b("4"))]), Ok(()));
    assert_eq!(db.get(b"d").unwrap(), Some(b("4")));
}

#[test]
fn open_refuses_a_run_out_of_key_order() {
    // Entries "b" then "a".
    let bytes = vec![1, 0, b'b', 1, 0, 0, 0, b'x', 1, 0, b'a', 1, 0, 0, 0, b'y'];
    let files = vec![StoredFile { name: sstable_file_name(3), bytes }];
    let result = Velocity::open_with_config(Vec::new(), &files, small_config());
    assert!(matches!(result, Err(VeloError::CorruptedData(_))));
}

#[test]
fn open_loads_runs_in_id_order_and_ignores_other_files() {
    let mut first = Velocity::new(small_config());
    first.put(b("k"), b("old")).unwrap();
    first.put(b("only_old"), b("o")).unwrap();
    first.flush().unwrap();
    first.put(b("k"), b("new")).unwrap();
    first.flush().unwrap();
    let mut files = run_files(&first);
    files.reverse();
    files.push(StoredFile { name: b("velocity.wal"), bytes: vec![1, 2, 3] });
    files.push(StoredFile { name: b("sstable_7.vdb"), bytes: vec![9, 9, 9] });
    files.push(StoredFile { name: b("notes.txt"), bytes: vec![] });

    let mut db = Velocity::open_with_config(Vec::new(), &files, small_config()).unwrap();
    let ids: Vec<u64> = db.sstables().iter().map(|t| t.id()).collect();
    assert_eq!(ids, vec![1, 2]);
    assert_eq!(db.get(b"k").unwrap(), Some(b("new")));
    assert_eq!(db.get(b"only_old").unwrap(), Some(b("o")));
    db.put(b("z"), b("1")).unwrap();
    db.flush().unwrap();
    assert_eq!(db.sstables().last().unwrap().id(), 3);
}

#[test]
fn open_tolerates_a_run_with_a_torn_tail() {
    let mut first = Velocity::new(small_config());
    first.put(b("a"), b("1")).unwrap();
    first.put(b("b"), b("2")).unwrap();
    first.flush().unwrap();
    let mut files = run_files(&first);
    let whole = files[0].bytes.len();
    files[0].bytes.truncate(whole - 1);
    let mut db = Velocity::open_with_config(Vec::new(), &files, small_config()).unwrap();
    assert_eq!(db.sstables()[0].entry_count(), 1);
    assert_eq!(db.get(b"a").unwrap(), Some(b("1")));
    assert_eq!(db.get(b"b").unwrap(), None);
}

#[test]
fn memory_only_mode_logs_nothing() {
    let mut config = small_config();
    config.memory_only_mode = true;
    let mut db = Velocity::new(config);
    db.put(b("a"), b("1")).unwrap();
    let wal = drain(&mut db);
    assert!(wal.is_empty());
    assert_eq!(db.wal().buffer_size(), 0);
    assert_eq!(db.get(b"a").unwrap(), Some(b("1")));
}

#[test]
fn needs_flush_at_the_threshold() {
    let mut config = small_config();
    config.max_memtable_size = 2;
    let mut db = Velocity::new(config);
    assert!(!db.needs_flush());
    db.put(b("a"), b("1")).unwrap();
    assert!(!db.needs_flush());
    db.put(b("b"), b("2")).unwrap();
    assert!(db.needs_flush());
    db.flush().unwrap();
    assert!(!db.needs_flush());
}

#[test]
fn default_config_values() {
    let config = VelocityConfig::default();
    assert_eq!(config.max_memtable_size, 25000);
    assert_eq!(config.cache_size, 25000);
    assert_eq!(config.bloom_millibits_per_key, 14378);
    assert_eq!(config.bloom_probes, 10);
    assert_eq!(config.compaction_threshold, 16);
    assert!(!config.enable_compression);
    assert!(!config.memory_only_mode);
    assert!(config.batch_wal_writes);
    assert_eq!(config.wal_sync_mode, WalSyncMode::Batch);
}

#[test]
fn filter_sizing_rounds_up() {
    assert_eq!(filter_bits_for(10000, 14378), 143780);
    assert_eq!(filter_bits_for(1, 14378), 15);
    assert_eq!(filter_bits_for(0, 14378), 1);
    assert_eq!(filter_bits_for(3, 1000), 3);
    assert_eq!(filter_bits_for(3, 1001), 4);
    assert_eq!(filter_bits_for(usize::MAX, usize::MAX), usize::MAX);
}

#[test]
fn flush_past_the_compaction_threshold_keeps_every_run() {
    let mut config = small_config();
    config.compaction_threshold = 2;
    let mut db = Velocity::new(config);
    for round in 0..4 {
        db.put(b(&format!("k{}", round)), b(&format!("v{}", round))).unwrap();
        assert_eq!(db.flush(), Ok(()));
    }
    assert_eq!(db.stats().sstable_count, 4);
    for round in 0..4 {
        assert_eq!(db.get(format!("k{}", round).as_bytes()).unwrap(), Some(b(&format!("v{}", round))));
    }
}

#[test]
fn flush_takes_the_waiting_writes_with_it() {
    let mut db = Velocity::new(small_config());
    db.put(b("a"), b("1")).unwrap();
    assert_eq!(db.pending_writes(), 1);
    db.flush().unwrap();
    assert_eq!(db.pending_writes(), 0);
    assert_eq!(db.wal().buffer_size(), 0);
    // No worker turn brings the flushed write back into the log.
    let wal = drain(&mut db);
    assert!(wal.is_empty());
    assert_eq!(db.stats().memtable_entries, 0);
    let files = run_files(&db);
    let mut reopened = Velocity::open_with_config(wal, &files, small_config()).unwrap();
    assert_eq!(reopened.get(b"a").unwrap(), Some(b("1")));
    assert_eq!(reopened.stats().memtable_entries, 0);
    assert_eq!(reopened.stats().sstable_count, 1);
}

#[test]
fn a_flushed_write_is_not_hidden_by_an_older_log_record() {
    let mut db = Velocity::new(small_config());
    db.put(b("k"), b("1")).unwrap();
    db.put(b("k"), b("2")).unwrap();
    db.flush().unwrap();
    assert_eq!(db.get(b"k").unwrap(), Some(b("2")));
    db.process_writes(1_700_000_000, 0);
    db.sync_log();
    let wal = db.wal().bytes().clone();
    assert!(wal.is_empty());
    let files = run_files(&db);
    let mut reopened = Velocity::open_with_config(wal, &files, small_config()).unwrap();
    assert_eq!(reopened.get(b"k").unwrap(), Some(b("2")));
}

#[test]
fn stats_are_kept_by_a_flush_on_an_empty_memtable() {
    let mut db = Velocity::new(small_config());
    db.put(b("a"), b("1")).unwrap();
    db.flush().unwrap();
    let before = db.stats();
    db.flush().unwrap();
    assert_eq!(db.stats(), before);
    assert_eq!(before.total_size_bytes, before.total_sstable_size);
}

#[test]
fn a_tombstone_counts_as_a_memtable_entry() {
    let mut db = Velocity::new(small_config());
    db.put(b("a"), b("1")).unwrap();
    db.delete(b("b")).unwrap();
    db.delete(b("a")).unwrap();
    assert_eq!(db.stats().memtable_entries, 2);
    assert_eq!(db.memtable().len(), 2);
    // The cache holds the tombstones, and the filter knows both keys.
    assert_eq!(db.stats().cache_entries, 2);
    assert_eq!(db.pending_writes(), 3);
}

#[test]
fn put_batch_queues_what_it_writes() {
    let mut db = Velocity::new(small_config());
    db.put_batch(vec![(b("a"), b("1")), (b("b"), b("2"))]).unwrap();
    assert_eq!(db.pending_writes(), 2);
    let _ = db.put_batch(vec![(b("c"), b("3")), (vec![0u8; 70000], b("x")), (b("d"), b("4"))]);
    assert_eq!(db.pending_writes(), 3);
    let wal = drain(&mut db);
    let reopened = Velocity::open_with_config(wal, &Vec::new(), small_config()).unwrap();
    assert_eq!(
        reopened.scan(10),
        vec![(b("a"), b("1")), (b("b"), b("2")), (b("c"), b("3"))]
    );
}

#[test]
fn a_write_on_a_freshly_opened_engine_succeeds() {
    let mut db = Velocity::open(Vec::new(), &Vec::new()).unwrap();
    assert_eq!(db.put(b("k"), b("v")), Ok(()));
    assert_eq!(db.config().cache_size, 25000);
    assert_eq!(db.pending_writes(), 1);
    assert_eq!(db.get(b"k").unwrap(), Some(b("v")));
}

#[test]
fn errors_carry_their_text() {
    assert_eq!(VeloError::IoError("disk".to_string()).detail(), "disk");
    assert_eq!(VeloError::CorruptedData("sum".to_string()).detail(), "sum");
    assert_eq!(VeloError::KeyNotFound("k".to_string()).detail(), "k");
    assert_eq!(VeloError::InvalidOperation("no".to_string()).detail(), "no");
    assert_ne!(
        VeloError::KeyNotFound("k".to_string()),
        VeloError::InvalidOperation("k".to_string())
    );
}

#[test]
fn a_log_without_a_record_for_the_engine_is_discarded_at_open() {
    let mut wal = velocity::wal::WriteAheadLog::new(Vec::new(), WalSyncMode::EveryWrite);
    wal.log_operation(&vec![b'k'; 70000], b"v", 1, 0).unwrap();
    let bytes = wal.bytes().clone();
    assert_eq!(db_report(&bytes), (1, 0, 0));
    let mut db = Velocity::open_with_config(bytes, &Vec::new(), small_config()).unwrap();
    assert_eq!(db.stats().memtable_entries, 0);
    assert_eq!(db.wal().buffer_size(), 0);
    assert_eq!(db.flush(), Ok(()));
    assert_eq!(db.wal().buffer_size(), 0);
}

fn db_report(bytes: &[u8]) -> (usize, usize, usize) {
    let report = velocity::wal::scan_integrity(bytes);
    (report.total_records, report.corrupted_records, report.truncated_records)
}

#[test]
fn after_every_flush_memtable_and_log_are_empty() {
    let mut db = Velocity::new(small_config());
    for round in 0..3 {
        for i in 0..5 {
            db.put(b(&format!("k{}-{}", round, i)), b("v")).unwrap();
            if i % 2 == 0 {
                db.process_writes(1, 0);
            }
        }
        db.flush().unwrap();
        assert_eq!(db.stats().memtable_entries, 0);
        assert_eq!(db.wal().buffer_size(), 0);
        assert_eq!(db.pending_writes(), 0);
        db.process_writes(2, 0);
        assert_eq!(db.wal().buffer_size(), 0);
        db.flush().unwrap();
        assert_eq!(db.wal().buffer_size(), 0);
    }
}
