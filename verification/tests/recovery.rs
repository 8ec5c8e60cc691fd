use std::ops::Bound;
use std::sync::Arc;

use bytes::Bytes;
use mini_lsm::compact::{CompactionOptions, LeveledCompactionOptions, TieredCompactionOptions};
use mini_lsm::iterators::StorageIterator;
use mini_lsm::lsm_storage::flush::{CloseStep, FlushStep, ForceFlushStep};
use mini_lsm::lsm_storage::recovery::Recovery;
use mini_lsm::lsm_storage::actions::ManifestRecord;
use mini_lsm::lsm_storage::actions::Action;
use mini_lsm::lsm_storage::write_path::WriteStep;
use mini_lsm::lsm_storage::{LsmStorageInner, LsmStorageOptions};
use mini_lsm::table::SsTable;

/// A disk in memory: what the actions of an engine leave behind.
struct Disk {
    records: Vec<ManifestRecord>,
    tables: Vec<Arc<SsTable>>,
    logs: Vec<(usize, Vec<(Bytes, Bytes)>)>,
}

impl Disk {
    fn new() -> Self {
        Disk { records: Vec::new(), tables: Vec::new(), logs: Vec::new() }
    }

    fn perform(&mut self, actions: Vec<Action>) {
        for action in actions {
            match action {
                Action::CreateWal(id) => self.logs.push((id, Vec::new())),
                Action::AppendWal(id, k, v) => {
                    let log = self.logs.iter_mut().find(|l| l.0 == id).unwrap();
                    log.1.push((k, v));
                }
                Action::RemoveWal(id) => self.logs.retain(|l| l.0 != id),
                Action::WriteSst(t) => self.tables.push(t),
                Action::AddRecord(r) => self.records.push(r),
                Action::SyncWal(_) | Action::SyncDir | Action::CreateManifest => {}
            }
        }
    }

    fn open(&mut self, options: LsmStorageOptions) -> LsmStorageInner {
        let mut recovery = Recovery::new(&options);
        for record in &self.records {
            recovery.replay(*record);
        }
        let tables = recovery
            .table_ids()
            .into_iter()
            .map(|id| self.tables.iter().find(|t| t.sst_id() == id).unwrap().clone())
            .collect();
        let logs = if options.enable_wal {
            recovery
                .pending()
                .into_iter()
                .map(|id| self.logs.iter().find(|l| l.0 == id).unwrap().clone())
                .collect()
        } else {
            Vec::new()
        };
        let (engine, actions) = LsmStorageInner::open_existing(recovery, tables, logs);
        self.perform(actions);
        engine
    }
}

fn create(disk: &mut Disk, options: LsmStorageOptions) -> LsmStorageInner {
    let (engine, actions) = LsmStorageInner::open_new(options);
    disk.perform(actions);
    engine
}

fn put(engine: &mut LsmStorageInner, disk: &mut Disk, key: &str, value: &str) {
    let mut step = Some(WriteStep::Begin);
    while let Some(s) = step {
        let phase = engine.put(key.as_bytes(), value.as_bytes(), s).unwrap();
        disk.perform(phase.actions);
        step = phase.next;
    }
}

fn delete(engine: &mut LsmStorageInner, disk: &mut Disk, key: &str) {
    let mut step = Some(WriteStep::Begin);
    while let Some(s) = step {
        let phase = engine.delete(key.as_bytes(), s).unwrap();
        disk.perform(phase.actions);
        step = phase.next;
    }
}

fn force_flush(engine: &mut LsmStorageInner, disk: &mut Disk) {
    let mut step = Some(ForceFlushStep::Begin);
    while let Some(s) = step {
        let phase = engine.force_flush(s);
        disk.perform(phase.actions);
        step = phase.next;
    }
}

fn close(engine: &mut LsmStorageInner, disk: &mut Disk) {
    let mut step = Some(CloseStep::Begin);
    while let Some(s) = step {
        let phase = engine.close(s);
        disk.perform(phase.actions);
        step = phase.next;
    }
}

fn scan_all(engine: &LsmStorageInner) -> Vec<String> {
    let mut iter = engine.scan(Bound::Unbounded, Bound::Unbounded).unwrap();
    let mut out = Vec::new();
    while iter.is_valid() {
        let key = String::from_utf8(iter.key().to_vec()).unwrap();
        let value = String::from_utf8(iter.value().to_vec()).unwrap();
        out.push(format!("{key}:{value}"));
        iter.next().unwrap();
    }
    out
}

fn plain(compaction: CompactionOptions) -> LsmStorageOptions {
    LsmStorageOptions::default_for_week2_test(compaction)
}

fn logged(compaction: CompactionOptions) -> LsmStorageOptions {
    let mut options = plain(compaction);
    options.enable_wal = true;
    options
}

fn leveled() -> CompactionOptions {
    CompactionOptions::Leveled(LeveledCompactionOptions {
        level_size_multiplier: 2,
        level0_file_num_compaction_trigger: 2,
        max_levels: 2,
        base_level_size_mb: 128,
    })
}

fn tiered() -> CompactionOptions {
    CompactionOptions::Tiered(TieredCompactionOptions {
        num_tiers: 3,
        max_size_amplification_percent: 200,
        size_ratio: 1,
        min_merge_width: 2,
        max_merge_width: Some(4),
    })
}

fn table(id: usize, list: &[(&str, &str)]) -> Arc<SsTable> {
    let bytes = |s: &str| Bytes::copy_from_slice(s.as_bytes());
    let entries = list.iter().map(|(k, v)| (bytes(k), bytes(v))).collect();
    Arc::new(SsTable::open(id, &entries).unwrap())
}

#[test]
fn a_new_store_records_its_memtable() {
    let mut disk = Disk::new();
    let engine = create(&mut disk, logged(CompactionOptions::NoCompaction));
    assert_eq!(disk.records, vec![ManifestRecord::NewMemtable(0)]);
    assert_eq!(disk.logs.len(), 1);
    assert_eq!(engine.next_sst_id, 1);
    assert_eq!(engine.state.memtable.id(), 0);
    assert_eq!(engine.state.memtable.sync_wal(), Some(0));
}

#[test]
fn records_make_and_flush_pending_memtables() {
    let options = plain(CompactionOptions::NoCompaction);
    let mut recovery = Recovery::new(&options);
    recovery.replay(ManifestRecord::NewMemtable(7));
    recovery.replay(ManifestRecord::NewMemtable(3));
    assert!(recovery.is_pending(7));
    assert_eq!(recovery.pending(), vec![3, 7]);
    recovery.replay(ManifestRecord::Flush(7));
    assert!(!recovery.is_pending(7));
    assert_eq!(recovery.pending(), vec![3]);
    assert_eq!(recovery.l0_sstables(), &vec![7]);
    recovery.replay(ManifestRecord::Flush(3));
    assert_eq!(recovery.table_ids(), vec![3, 7]);
    assert_eq!(recovery.levels(), &vec![(1, vec![])]);
}

#[test]
fn flush_records_make_tiers() {
    let mut recovery = Recovery::new(&plain(tiered()));
    recovery.replay(ManifestRecord::NewMemtable(0));
    recovery.replay(ManifestRecord::NewMemtable(1));
    recovery.replay(ManifestRecord::Flush(0));
    recovery.replay(ManifestRecord::Flush(1));
    assert!(recovery.l0_sstables().is_empty());
    assert_eq!(recovery.levels(), &vec![(1, vec![1]), (0, vec![0])]);
    assert_eq!(recovery.table_ids(), vec![1, 0]);
}

#[test]
fn compaction_records_replace_the_layout() {
    let mut recovery = Recovery::new(&plain(leveled()));
    recovery.replay(ManifestRecord::NewMemtable(0));
    recovery.replay(ManifestRecord::Flush(0));
    recovery.replay_compaction(vec![], vec![(1, vec![9, 8]), (2, vec![])], &vec![8, 9]);
    assert_eq!(recovery.table_ids(), vec![9, 8]);
    let tables = vec![table(9, &[("m", "9")]), table(8, &[("a", "8")])];
    let (engine, actions) = LsmStorageInner::open_existing(recovery, tables, Vec::new());
    // The tables of a level are brought into order by their first keys.
    assert_eq!(engine.state.levels, vec![(1, vec![8, 9]), (2, vec![])]);
    assert_eq!(engine.state.memtable.id(), 10);
    assert_eq!(engine.next_sst_id, 11);
    assert_eq!(actions.len(), 2);
    assert!(matches!(actions[0], Action::AddRecord(ManifestRecord::NewMemtable(10))));
    assert_eq!(scan_all(&engine), ["a:8", "m:9"]);
}

#[test]
fn other_policies_keep_the_order_of_their_tables() {
    let mut recovery = Recovery::new(&plain(tiered()));
    recovery.replay_compaction(vec![], vec![(5, vec![5, 4])], &vec![]);
    let tables = vec![table(5, &[("a", "5")]), table(4, &[("m", "4")])];
    let (engine, _) = LsmStorageInner::open_existing(recovery, tables, Vec::new());
    assert_eq!(engine.state.levels, vec![(5, vec![5, 4])]);
    assert_eq!(scan_all(&engine), ["a:5", "m:4"]);
}

#[test]
fn logs_bring_back_what_was_in_memory() {
    for compaction in [CompactionOptions::NoCompaction, leveled(), tiered()] {
        let mut disk = Disk::new();
        let options = logged(compaction);
        let mut engine = create(&mut disk, options);
        put(&mut engine, &mut disk, "a", "0");
        put(&mut engine, &mut disk, "b", "0");
        force_flush(&mut engine, &mut disk);
        put(&mut engine, &mut disk, "a", "1");
        force_flush(&mut engine, &mut disk);
        delete(&mut engine, &mut disk, "b");
        put(&mut engine, &mut disk, "c", "2");
        put(&mut engine, &mut disk, "c", "3");
        let before = scan_all(&engine);
        assert_eq!(before, ["a:1", "c:3"]);
        // Without a close.
        let mut again = disk.open(options);
        assert_eq!(scan_all(&again), before);
        assert_eq!(again.state.imm_memtables.len(), 1);
        assert!(again.state.memtable.is_empty());
        assert!(again.next_sst_id > engine.next_sst_id);
        // And once more, after another write.
        put(&mut again, &mut disk, "d", "4");
        let third = disk.open(options);
        assert_eq!(scan_all(&third), ["a:1", "c:3", "d:4"]);
    }
}

#[test]
fn without_logs_unflushed_writes_are_lost() {
    let mut disk = Disk::new();
    let options = plain(CompactionOptions::NoCompaction);
    let mut engine = create(&mut disk, options);
    put(&mut engine, &mut disk, "a", "1");
    force_flush(&mut engine, &mut disk);
    put(&mut engine, &mut disk, "b", "2");
    let again = disk.open(options);
    assert_eq!(scan_all(&again), ["a:1"]);
}

#[test]
fn a_closed_store_comes_back_whole() {
    for compaction in [CompactionOptions::NoCompaction, leveled(), tiered()] {
        let mut disk = Disk::new();
        let options = plain(compaction);
        let mut engine = create(&mut disk, options);
        put(&mut engine, &mut disk, "a", "1");
        put(&mut engine, &mut disk, "b", "1");
        force_flush(&mut engine, &mut disk);
        delete(&mut engine, &mut disk, "a");
        put(&mut engine, &mut disk, "c", "2");
        close(&mut engine, &mut disk);
        let again = disk.open(options);
        assert_eq!(scan_all(&again), ["b:1", "c:2"]);
        assert!(again.state.imm_memtables.is_empty());
    }
}

#[test]
fn a_flush_that_was_not_recorded_is_recovered_from_its_log() {
    let mut disk = Disk::new();
    let options = logged(CompactionOptions::NoCompaction);
    let mut engine = create(&mut disk, options);
    put(&mut engine, &mut disk, "a", "1");
    // The table gets to the disk, and no further.
    let mut step = ForceFlushStep::Begin;
    loop {
        let phase = engine.force_flush(step);
        disk.perform(phase.actions);
        match phase.next {
            Some(ForceFlushStep::Install(_)) | None => break,
            Some(next) => step = next,
        }
    }
    assert_eq!(disk.tables.len(), 1);
    let again = disk.open(options);
    assert!(again.state.l0_sstables.is_empty());
    assert_eq!(scan_all(&again), ["a:1"]);
}

#[test]
fn tables_with_the_same_first_key_keep_their_order() {
    let mut recovery = Recovery::new(&plain(leveled()));
    let levels = vec![(1, vec![7, 9, 8, 6]), (2, vec![])];
    recovery.replay_compaction(vec![], levels, &vec![6, 7, 8, 9]);
    let tables = vec![
        table(7, &[("m", "7")]),
        table(9, &[("a", "9"), ("z", "9")]),
        table(8, &[("m", "8")]),
        table(6, &[("a", "6")]),
    ];
    let (engine, _) = LsmStorageInner::open_existing(recovery, tables, Vec::new());
    assert_eq!(engine.state.levels, vec![(1, vec![9, 6, 7, 8]), (2, vec![])]);
    // Ranges that overlap within a level are told.
    assert!(!engine.is_sound());
}

#[test]
fn a_level_that_was_recorded_out_of_order_can_be_used() {
    let mut recovery = Recovery::new(&plain(leveled()));
    recovery.replay_compaction(vec![], vec![(1, vec![3, 1, 2]), (2, vec![])], &vec![1, 2, 3]);
    let tables = vec![
        table(3, &[("x", "3")]),
        table(1, &[("a", "1"), ("c", "1")]),
        table(2, &[("d", "2"), ("e", "2")]),
    ];
    let (engine, _) = LsmStorageInner::open_existing(recovery, tables, Vec::new());
    assert!(engine.is_sound());
    assert_eq!(scan_all(&engine), ["a:1", "c:1", "d:2", "e:2", "x:3"]);
}

#[test]
fn a_store_keeps_what_was_written_over_many_restarts() {
    for compaction in [CompactionOptions::NoCompaction, leveled(), tiered()] {
        for options in [plain(compaction), logged(compaction)] {
            let mut disk = Disk::new();
            let mut engine = create(&mut disk, options);
            let mut expected: Vec<String> = Vec::new();
            for round in 0..5 {
                let key = format!("k{round}");
                put(&mut engine, &mut disk, &key, "old");
                if round % 2 == 0 {
                    force_flush(&mut engine, &mut disk);
                }
                put(&mut engine, &mut disk, &key, "new");
                put(&mut engine, &mut disk, "gone", "here");
                delete(&mut engine, &mut disk, "gone");
                expected.push(format!("{key}:new"));
                close(&mut engine, &mut disk);
                engine = disk.open(options);
                assert!(engine.is_sound());
                assert_eq!(scan_all(&engine), expected);
                assert!(engine.state.imm_memtables.iter().all(|m| !m.is_empty()));
            }
        }
    }
}

#[test]
fn new_ids_exceed_those_of_the_records() {
    let mut recovery = Recovery::new(&plain(leveled()));
    recovery.replay(ManifestRecord::NewMemtable(4));
    recovery.replay(ManifestRecord::Flush(4));
    recovery.replay_compaction(vec![], vec![(1, vec![20]), (2, vec![])], &vec![20]);
    recovery.replay(ManifestRecord::NewMemtable(9));
    // The table of the flush is no longer part of the layout.
    assert_eq!(recovery.table_ids(), vec![20]);
    let tables = vec![table(20, &[("a", "1")])];
    let (engine, _) = LsmStorageInner::open_existing(recovery, tables, Vec::new());
    assert_eq!(engine.state.memtable.id(), 21);
    assert_eq!(engine.next_sst_id, 22);
    assert_eq!(engine.state.sstables.len(), 1);
    assert!(engine.is_sound());
}

/// A store with logs that holds a = 1 in a memtable to be flushed and b = 2 in the current one.
fn before_a_flush() -> (Disk, LsmStorageInner, LsmStorageOptions) {
    let mut disk = Disk::new();
    let mut options = logged(CompactionOptions::NoCompaction);
    options.target_sst_size = 2;
    let mut engine = create(&mut disk, options);
    put(&mut engine, &mut disk, "a", "1");
    assert_eq!(engine.state.imm_memtables.len(), 1);
    engine.options.target_sst_size = 100;
    put(&mut engine, &mut disk, "b", "2");
    (disk, engine, options)
}

#[test]
fn a_flush_can_stop_after_any_of_its_actions() {
    // Five actions: write the table, sync, record, remove the log, sync.
    for limit in 0..=5 {
        let (mut disk, mut engine, options) = before_a_flush();
        let mut performed = 0;
        let mut step = Some(FlushStep::Begin);
        while let Some(s) = step {
            let phase = engine.force_flush_next_imm_memtable(s);
            for action in phase.actions {
                if performed < limit {
                    disk.perform(vec![action]);
                    performed += 1;
                }
            }
            step = phase.next;
        }
        assert_eq!(performed, limit);
        // The log outlives the record by one action.
        assert_eq!(disk.logs.iter().any(|l| l.0 == 0), limit < 4);
        let again = disk.open(options);
        let recorded = limit >= 3;
        assert_eq!(again.state.l0_sstables, if recorded { vec![0] } else { vec![] });
        assert_eq!(again.state.imm_memtables.len(), if recorded { 1 } else { 2 });
        assert!(again.is_sound());
        assert_eq!(scan_all(&again), ["a:1", "b:2"]);
    }
}

#[test]
fn opening_can_stop_after_any_of_its_actions() {
    for limit in 0..=3 {
        let (mut disk, _, options) = before_a_flush();
        let mut other = Disk {
            records: disk.records.clone(),
            tables: disk.tables.clone(),
            logs: disk.logs.clone(),
        };
        disk.open(options);
        // The actions of opening are: create the log, record the memtable, sync.
        if limit >= 1 {
            let log = disk.logs.last().unwrap().clone();
            other.logs.push(log);
        }
        if limit >= 2 {
            other.records.push(*disk.records.last().unwrap());
        }
        let again = other.open(options);
        assert!(again.is_sound());
        assert_eq!(scan_all(&again), ["a:1", "b:2"]);
    }
}
