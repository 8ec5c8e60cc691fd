use std::ops::Bound;
use std::sync::Arc;

use bytes::Bytes;
use mini_lsm::compact::{
    CompactionController, CompactionOptions, LeveledCompactionOptions,
    SimpleLeveledCompactionOptions, TieredCompactionOptions,
};
use mini_lsm::error::StorageError;
use mini_lsm::iterators::StorageIterator;
use mini_lsm::key::KeySlice;
use mini_lsm::lsm_storage::flush::{CloseStep, FlushStep, ForceFlushStep};
use mini_lsm::lsm_storage::actions::ManifestRecord;
use mini_lsm::lsm_storage::actions::Action;
use mini_lsm::lsm_storage::write_path::{FreezeStep, WriteStep};
use mini_lsm::lsm_storage::{
    key_within, range_overlap, validate_write_batch, CompactionFilter, LsmStorageInner,
    LsmStorageOptions, LsmStorageState, WriteBatchRecord,
};
use mini_lsm::table::SsTable;

fn bytes(s: &str) -> Bytes {
    Bytes::copy_from_slice(s.as_bytes())
}

fn show(actions: &[Action]) -> Vec<String> {
    actions
        .iter()
        .map(|a| match a {
            Action::CreateWal(id) => format!("create wal {id}"),
            Action::AppendWal(id, k, v) => format!("append wal {id} {k:?} {v:?}"),
            Action::SyncWal(id) => format!("sync wal {id}"),
            Action::RemoveWal(id) => format!("remove wal {id}"),
            Action::WriteSst(t) => format!("write sst {} of {}", t.sst_id(), t.num_of_entries()),
            Action::SyncDir => String::from("sync dir"),
            Action::CreateManifest => String::from("create manifest"),
            Action::AddRecord(ManifestRecord::Flush(id)) => format!("record flush {id}"),
            Action::AddRecord(ManifestRecord::NewMemtable(id)) => format!("record memtable {id}"),
        })
        .collect()
}

fn write(engine: &mut LsmStorageInner, batch: &[WriteBatchRecord<&[u8]>]) -> Vec<String> {
    let mut log = Vec::new();
    let mut step = Some(WriteStep::Begin);
    while let Some(s) = step {
        let phase = engine.write_batch(batch, s).unwrap();
        log.extend(show(&phase.actions));
        step = phase.next;
    }
    log
}

fn put(engine: &mut LsmStorageInner, key: &str, value: &str) -> Vec<String> {
    let mut log = Vec::new();
    let mut step = Some(WriteStep::Begin);
    while let Some(s) = step {
        let phase = engine.put(key.as_bytes(), value.as_bytes(), s).unwrap();
        log.extend(show(&phase.actions));
        step = phase.next;
    }
    log
}

fn delete(engine: &mut LsmStorageInner, key: &str) -> Vec<String> {
    let mut log = Vec::new();
    let mut step = Some(WriteStep::Begin);
    while let Some(s) = step {
        let phase = engine.delete(key.as_bytes(), s).unwrap();
        log.extend(show(&phase.actions));
        step = phase.next;
    }
    log
}

fn freeze(engine: &mut LsmStorageInner) -> Vec<String> {
    let mut log = Vec::new();
    let mut step = Some(FreezeStep::Begin);
    while let Some(s) = step {
        let phase = engine.force_freeze_memtable(s);
        log.extend(show(&phase.actions));
        step = phase.next;
    }
    log
}

fn flush(engine: &mut LsmStorageInner) -> Vec<String> {
    let mut log = Vec::new();
    let mut step = Some(FlushStep::Begin);
    while let Some(s) = step {
        let phase = engine.force_flush_next_imm_memtable(s);
        log.extend(show(&phase.actions));
        step = phase.next;
    }
    log
}

fn force_flush(engine: &mut LsmStorageInner) -> Vec<String> {
    let mut log = Vec::new();
    let mut step = Some(ForceFlushStep::Begin);
    while let Some(s) = step {
        let phase = engine.force_flush(s);
        log.extend(show(&phase.actions));
        step = phase.next;
    }
    log
}

fn close(engine: &mut LsmStorageInner) -> Vec<String> {
    let mut log = Vec::new();
    let mut step = Some(CloseStep::Begin);
    while let Some(s) = step {
        let phase = engine.close(s);
        log.extend(show(&phase.actions));
        step = phase.next;
    }
    log
}

fn get(engine: &LsmStorageInner, key: &str) -> Option<String> {
    let value = engine.get(key.as_bytes()).unwrap();
    value.map(|v| String::from_utf8(v.to_vec()).unwrap())
}

fn scan(engine: &LsmStorageInner, lower: Bound<&str>, upper: Bound<&str>) -> Vec<String> {
    let lower = match lower {
        Bound::Included(k) => Bound::Included(k.as_bytes()),
        Bound::Excluded(k) => Bound::Excluded(k.as_bytes()),
        Bound::Unbounded => Bound::Unbounded,
    };
    let upper = match upper {
        Bound::Included(k) => Bound::Included(k.as_bytes()),
        Bound::Excluded(k) => Bound::Excluded(k.as_bytes()),
        Bound::Unbounded => Bound::Unbounded,
    };
    let mut iter = engine.scan(lower, upper).unwrap();
    let mut out = Vec::new();
    while iter.is_valid() {
        let key = String::from_utf8(iter.key().to_vec()).unwrap();
        let value = String::from_utf8(iter.value().to_vec()).unwrap();
        out.push(format!("{key}:{value}"));
        iter.next().unwrap();
    }
    assert!(iter.next().is_ok());
    out
}

fn scan_all(engine: &LsmStorageInner) -> Vec<String> {
    scan(engine, Bound::Unbounded, Bound::Unbounded)
}

fn leveled() -> CompactionOptions {
    CompactionOptions::Leveled(LeveledCompactionOptions {
        level_size_multiplier: 2,
        level0_file_num_compaction_trigger: 2,
        max_levels: 4,
        base_level_size_mb: 128,
    })
}

fn tiered() -> CompactionOptions {
    CompactionOptions::Tiered(TieredCompactionOptions {
        num_tiers: 3,
        max_size_amplification_percent: 200,
        size_ratio: 1,
        min_merge_width: 2,
        max_merge_width: None,
    })
}

fn simple() -> CompactionOptions {
    CompactionOptions::Simple(SimpleLeveledCompactionOptions {
        size_ratio_percent: 200,
        level0_file_num_compaction_trigger: 2,
        max_levels: 3,
    })
}

fn new_engine(options: LsmStorageOptions) -> LsmStorageInner {
    LsmStorageInner::open_new(options).0
}

fn plain() -> LsmStorageInner {
    new_engine(LsmStorageOptions::default_for_week1_test())
}

fn logged() -> LsmStorageInner {
    let mut options = LsmStorageOptions::default_for_week1_test();
    options.enable_wal = true;
    new_engine(options)
}

fn add_table(state: &mut LsmStorageState, id: usize, list: &[(&str, &str)]) {
    let entries = list.iter().map(|(k, v)| (bytes(k), bytes(v))).collect();
    state.sstables.insert(id, Arc::new(SsTable::open(id, &entries).unwrap()));
}

/// current memtable: b deleted, d = 4; immutable: a = 1, b = 2; L0: a = 0, c = 3, d = 3.
fn three_sources() -> LsmStorageInner {
    let mut engine = plain();
    put(&mut engine, "a", "0");
    put(&mut engine, "c", "3");
    put(&mut engine, "d", "3");
    freeze(&mut engine);
    flush(&mut engine);
    put(&mut engine, "a", "1");
    put(&mut engine, "b", "2");
    freeze(&mut engine);
    delete(&mut engine, "b");
    put(&mut engine, "d", "4");
    engine
}

#[test]
fn options_for_tests_have_the_documented_values() {
    let o = LsmStorageOptions::default_for_week1_test();
    assert_eq!(o.block_size, 4096);
    assert_eq!(o.target_sst_size, 2 << 20);
    assert_eq!(o.num_memtable_limit, 50);
    assert!(!o.enable_wal && !o.serializable);
    assert!(matches!(o.compaction_options, CompactionOptions::NoCompaction));
    let o = LsmStorageOptions::default_for_week1_day6_test();
    assert_eq!((o.block_size, o.target_sst_size, o.num_memtable_limit), (4096, 2 << 20, 2));
    assert!(matches!(o.compaction_options, CompactionOptions::NoCompaction));
    let o = LsmStorageOptions::default_for_week2_test(tiered());
    assert_eq!((o.block_size, o.target_sst_size, o.num_memtable_limit), (4096, 1 << 20, 2));
    assert!(matches!(o.compaction_options, CompactionOptions::Tiered(_)));
    assert!(!o.enable_wal && !o.serializable);
}

#[test]
fn a_new_layout_has_the_levels_of_its_policy() {
    let levels = |c: CompactionOptions| {
        let state = LsmStorageState::create(&LsmStorageOptions::default_for_week2_test(c));
        assert_eq!(state.memtable.id(), 0);
        assert!(state.imm_memtables.is_empty() && state.l0_sstables.is_empty());
        assert!(state.sstables.is_empty());
        state.levels
    };
    assert_eq!(levels(leveled()), vec![(1, vec![]), (2, vec![]), (3, vec![]), (4, vec![])]);
    assert_eq!(levels(simple()), vec![(1, vec![]), (2, vec![]), (3, vec![])]);
    assert_eq!(levels(tiered()), vec![]);
    assert_eq!(levels(CompactionOptions::NoCompaction), vec![(1, vec![])]);
}

#[test]
fn only_tiers_are_not_flushed_to_l0() {
    assert!(CompactionController::new(&leveled()).flush_to_l0());
    assert!(CompactionController::new(&simple()).flush_to_l0());
    assert!(CompactionController::new(&CompactionOptions::NoCompaction).flush_to_l0());
    assert!(!CompactionController::new(&tiered()).flush_to_l0());
}

#[test]
fn fields_must_fit_the_format() {
    let longest = vec![1u8; 65535];
    let too_long = vec![1u8; 65536];
    let ok = [WriteBatchRecord::Put(longest.clone(), longest.clone())];
    assert!(validate_write_batch(&ok).is_ok());
    let key = [
        WriteBatchRecord::Del(longest.clone()),
        WriteBatchRecord::Put(too_long.clone(), too_long.clone()),
    ];
    assert!(matches!(validate_write_batch(&key), Err(StorageError::KeyTooLarge)));
    let value = [
        WriteBatchRecord::Put(longest.clone(), too_long.clone()),
        WriteBatchRecord::Del(too_long.clone()),
    ];
    assert!(matches!(validate_write_batch(&value), Err(StorageError::ValueTooLarge)));
    let deletion = [WriteBatchRecord::Del(too_long)];
    assert!(matches!(validate_write_batch(&deletion), Err(StorageError::KeyTooLarge)));
    let none: [WriteBatchRecord<Bytes>; 0] = [];
    assert!(validate_write_batch(&none).is_ok());
}

#[test]
fn a_rejected_batch_changes_nothing() {
    let mut engine = plain();
    let long = vec![1u8; 65536];
    let batch: [WriteBatchRecord<&[u8]>; 2] =
        [WriteBatchRecord::Put(b"a", b"1"), WriteBatchRecord::Put(b"b", &long)];
    assert!(engine.write_batch(&batch, WriteStep::Begin).is_err());
    assert!(engine.state.memtable.is_empty());
    assert!(matches!(
        engine.put(&long, b"1", WriteStep::Begin),
        Err(StorageError::KeyTooLarge)
    ));
    assert!(matches!(engine.delete(&long, WriteStep::Begin), Err(StorageError::KeyTooLarge)));
    assert_eq!(get(&engine, "a"), None);
}

#[test]
fn ranges_overlap_tables_by_their_ends() {
    let begin = KeySlice::from_slice(b"c");
    let end = KeySlice::from_slice(b"f");
    let overlap = |l, u| range_overlap(l, u, begin, end);
    assert!(!overlap(Bound::Included(b"a"), Bound::Excluded(b"c")));
    assert!(overlap(Bound::Included(b"a"), Bound::Included(b"c")));
    assert!(!overlap(Bound::Unbounded, Bound::Included(b"b")));
    assert!(overlap(Bound::Included(b"f"), Bound::Unbounded));
    assert!(!overlap(Bound::Excluded(b"f"), Bound::Unbounded));
    assert!(!overlap(Bound::Included(b"g"), Bound::Unbounded));
    assert!(overlap(Bound::Excluded(b"d"), Bound::Excluded(b"e")));
    assert!(overlap(Bound::Unbounded, Bound::Unbounded));
}

#[test]
fn keys_lie_within_closed_ranges() {
    let begin = KeySlice::from_slice(b"c");
    let end = KeySlice::from_slice(b"f");
    assert!(key_within(b"c", begin, end));
    assert!(key_within(b"d", begin, end));
    assert!(key_within(b"f", begin, end));
    assert!(!key_within(b"b", begin, end));
    assert!(!key_within(b"fa", begin, end));
}

#[test]
fn reads_go_through_all_sources() {
    let engine = three_sources();
    assert_eq!(get(&engine, "a"), Some(String::from("1")));
    assert_eq!(get(&engine, "b"), None);
    assert_eq!(get(&engine, "c"), Some(String::from("3")));
    assert_eq!(get(&engine, "d"), Some(String::from("4")));
    assert_eq!(get(&engine, "e"), None);
    assert_eq!(
        scan(&engine, Bound::Included("a"), Bound::Included("d")),
        ["a:1", "c:3", "d:4"]
    );
    assert_eq!(scan(&engine, Bound::Excluded("a"), Bound::Excluded("d")), ["c:3"]);
    assert!(scan(&engine, Bound::Included("d"), Bound::Included("a")).is_empty());
}

#[test]
fn a_scan_and_point_reads_agree() {
    let engine = three_sources();
    for key in ["a", "b", "c", "d", "e"] {
        let one = scan(&engine, Bound::Included(key), Bound::Included(key));
        match get(&engine, key) {
            Some(v) => assert_eq!(one, [format!("{key}:{v}")]),
            None => assert!(one.is_empty()),
        }
    }
}

#[test]
fn a_scan_checks_its_bound_where_a_seek_lands() {
    let mut engine = plain();
    put(&mut engine, "a", "1");
    put(&mut engine, "c", "3");
    force_flush(&mut engine);
    assert!(scan(&engine, Bound::Included("b"), Bound::Included("b")).is_empty());
    assert_eq!(scan(&engine, Bound::Excluded("a"), Bound::Unbounded), ["c:3"]);
    assert_eq!(get(&engine, "b"), None);
}

#[test]
fn earlier_levels_win_and_levels_are_concatenated() {
    let mut engine = new_engine(LsmStorageOptions::default_for_week2_test(leveled()));
    add_table(&mut engine.state, 10, &[("a", "l1"), ("c", "")]);
    add_table(&mut engine.state, 11, &[("m", "l1")]);
    add_table(&mut engine.state, 12, &[("a", "l2"), ("b", "l2"), ("c", "l2"), ("z", "l2")]);
    engine.state.levels[0].1 = vec![10, 11];
    engine.state.levels[1].1 = vec![12];
    engine.next_sst_id = 13;
    assert_eq!(get(&engine, "a"), Some(String::from("l1")));
    assert_eq!(get(&engine, "b"), Some(String::from("l2")));
    assert_eq!(get(&engine, "c"), None);
    assert_eq!(get(&engine, "m"), Some(String::from("l1")));
    assert_eq!(scan_all(&engine), ["a:l1", "b:l2", "m:l1", "z:l2"]);
    assert_eq!(scan(&engine, Bound::Excluded("b"), Bound::Included("m")), ["m:l1"]);
}

#[test]
fn the_newer_table_of_l0_wins() {
    let mut engine = plain();
    put(&mut engine, "a", "old");
    force_flush(&mut engine);
    put(&mut engine, "a", "new");
    force_flush(&mut engine);
    assert_eq!(engine.state.l0_sstables, vec![1, 0]);
    assert_eq!(get(&engine, "a"), Some(String::from("new")));
    delete(&mut engine, "a");
    force_flush(&mut engine);
    assert_eq!(get(&engine, "a"), None);
    assert!(scan_all(&engine).is_empty());
}

#[test]
fn a_batch_applies_its_records_in_order() {
    let mut engine = plain();
    let log = write(
        &mut engine,
        &[
            WriteBatchRecord::Put(b"a", b"1"),
            WriteBatchRecord::Put(b"b", b"2"),
            WriteBatchRecord::Put(b"a", b"3"),
            WriteBatchRecord::Del(b"b"),
        ],
    );
    assert!(log.is_empty());
    assert_eq!(scan_all(&engine), ["a:3"]);
    assert_eq!(engine.state.memtable.approximate_size(), 7);
}

#[test]
fn a_batch_is_its_records_written_one_by_one() {
    let mut options = LsmStorageOptions::default_for_week1_test();
    options.target_sst_size = 4;
    let mut batched = new_engine(options);
    write(
        &mut batched,
        &[
            WriteBatchRecord::Put(b"a", b"1"),
            WriteBatchRecord::Put(b"b", b"2"),
            WriteBatchRecord::Del(b"a"),
            WriteBatchRecord::Put(b"c", b"3"),
        ],
    );
    let mut single = new_engine(options);
    put(&mut single, "a", "1");
    put(&mut single, "b", "2");
    delete(&mut single, "a");
    put(&mut single, "c", "3");
    assert_eq!(scan_all(&batched), scan_all(&single));
    assert_eq!(batched.state.imm_memtables.len(), single.state.imm_memtables.len());
    assert_eq!(batched.next_sst_id, single.next_sst_id);
    assert_eq!(batched.state.memtable.approximate_size(), 3);
}

#[test]
fn a_full_memtable_is_frozen_between_records() {
    let mut options = LsmStorageOptions::default_for_week1_test();
    options.target_sst_size = 4;
    let mut engine = new_engine(options);
    let log = write(
        &mut engine,
        &[
            WriteBatchRecord::Put(b"a", b"1"),
            WriteBatchRecord::Put(b"b", b"2"),
            WriteBatchRecord::Put(b"c", b"3"),
        ],
    );
    assert_eq!(log, ["record memtable 1"]);
    assert_eq!(engine.state.imm_memtables.len(), 1);
    assert_eq!(engine.state.imm_memtables[0].id(), 0);
    assert_eq!(engine.state.memtable.id(), 1);
    assert_eq!(engine.state.memtable.get(b"c"), Some(bytes("3")));
    assert_eq!(scan_all(&engine), ["a:1", "b:2", "c:3"]);
}

#[test]
fn the_size_is_checked_again_before_a_freeze() {
    let mut options = LsmStorageOptions::default_for_week1_test();
    options.target_sst_size = 4;
    let mut engine = new_engine(options);
    let batch: [WriteBatchRecord<&[u8]>; 1] = [WriteBatchRecord::Put(b"abc", b"1")];
    let phase = engine.write_batch(&batch, WriteStep::Put(0)).unwrap();
    assert!(matches!(phase.next, Some(WriteStep::TryFreeze(0, 4))));
    // Someone else freezes the memtable in between.
    freeze(&mut engine);
    let phase = engine.write_batch(&batch, phase.next.unwrap()).unwrap();
    assert!(phase.actions.is_empty());
    assert!(matches!(phase.next, Some(WriteStep::Put(1))));
    assert_eq!(engine.state.imm_memtables.len(), 1);
}

#[test]
fn writes_with_a_log_append_to_it() {
    let mut engine = logged();
    assert_eq!(put(&mut engine, "a", "1"), ["append wal 0 b\"a\" b\"1\""]);
    assert_eq!(delete(&mut engine, "a"), ["append wal 0 b\"a\" b\"\""]);
    assert_eq!(show(&engine.sync()), ["sync wal 0"]);
    assert!(plain().sync().is_empty());
}

#[test]
fn a_freeze_moves_the_memtable_to_the_front() {
    let mut engine = logged();
    put(&mut engine, "a", "1");
    assert_eq!(
        freeze(&mut engine),
        ["create wal 1", "sync dir", "record memtable 1", "sync wal 0"]
    );
    put(&mut engine, "a", "2");
    freeze(&mut engine);
    let ids: Vec<usize> = engine.state.imm_memtables.iter().map(|m| m.id()).collect();
    assert_eq!(ids, vec![1, 0]);
    assert_eq!(engine.state.memtable.id(), 2);
    assert_eq!(engine.next_sst_id, 3);
    assert_eq!(get(&engine, "a"), Some(String::from("2")));
}

#[test]
fn a_flush_takes_the_oldest_memtable() {
    let mut engine = logged();
    put(&mut engine, "a", "1");
    put(&mut engine, "b", "1");
    freeze(&mut engine);
    put(&mut engine, "a", "2");
    freeze(&mut engine);
    let before = scan_all(&engine);
    assert_eq!(
        flush(&mut engine),
        ["write sst 0 of 2", "sync dir", "record flush 0", "remove wal 0", "sync dir"]
    );
    assert_eq!(engine.state.l0_sstables, vec![0]);
    assert_eq!(engine.state.imm_memtables.len(), 1);
    assert_eq!(engine.state.imm_memtables[0].id(), 1);
    assert_eq!(scan_all(&engine), before);
    assert_eq!(before, ["a:2", "b:1"]);
}

#[test]
fn a_flush_of_nothing_does_nothing() {
    let mut engine = plain();
    assert!(flush(&mut engine).is_empty());
    assert!(engine.state.l0_sstables.is_empty());
}

#[test]
fn a_flush_makes_a_tier_on_top() {
    let mut engine = new_engine(LsmStorageOptions::default_for_week2_test(tiered()));
    put(&mut engine, "a", "1");
    put(&mut engine, "b", "1");
    assert_eq!(
        force_flush(&mut engine),
        ["record memtable 1", "write sst 0 of 2", "sync dir", "record flush 0", "sync dir"]
    );
    put(&mut engine, "a", "2");
    force_flush(&mut engine);
    assert!(engine.state.l0_sstables.is_empty());
    assert_eq!(engine.state.levels, vec![(1, vec![1]), (0, vec![0])]);
    assert_eq!(scan_all(&engine), ["a:2", "b:1"]);
    assert_eq!(get(&engine, "a"), Some(String::from("2")));
}

#[test]
fn a_forced_flush_of_nothing_does_nothing() {
    let mut engine = plain();
    assert!(force_flush(&mut engine).is_empty());
    assert_eq!(engine.next_sst_id, 1);
}

#[test]
fn closing_without_logs_flushes_everything() {
    let mut engine = three_sources();
    let before = scan_all(&engine);
    assert_eq!(
        close(&mut engine),
        [
            "sync dir",
            "write sst 1 of 2",
            "sync dir",
            "record flush 1",
            "sync dir",
            "write sst 2 of 2",
            "sync dir",
            "record flush 2",
            "sync dir",
            "sync dir",
        ]
    );
    assert!(engine.state.imm_memtables.is_empty());
    assert!(engine.state.memtable.is_empty());
    assert_eq!(engine.state.l0_sstables, vec![2, 1, 0]);
    assert_eq!(scan_all(&engine), before);
}

#[test]
fn closing_with_logs_syncs() {
    let mut engine = logged();
    put(&mut engine, "a", "1");
    assert_eq!(close(&mut engine), ["sync dir", "sync wal 0", "sync dir"]);
    assert_eq!(engine.state.memtable.get(b"a"), Some(bytes("1")));
}

#[test]
fn closing_an_empty_store() {
    let mut engine = plain();
    assert_eq!(close(&mut engine), ["sync dir", "sync dir"]);
    assert_eq!(engine.next_sst_id, 1);
}

#[test]
fn the_limit_on_memtables_counts_the_current_one() {
    let mut engine = new_engine(LsmStorageOptions::default_for_week1_day6_test());
    assert!(!engine.needs_flush());
    put(&mut engine, "a", "1");
    freeze(&mut engine);
    assert!(!engine.needs_flush());
    put(&mut engine, "b", "1");
    freeze(&mut engine);
    assert!(engine.needs_flush());
}

#[test]
fn filters_are_kept_in_order() {
    let mut engine = plain();
    assert!(engine.new_txn().is_ok());
    engine.add_compaction_filter(CompactionFilter::Prefix(bytes("x")));
    engine.add_compaction_filter(CompactionFilter::Prefix(bytes("y")));
    let CompactionFilter::Prefix(last) = &engine.compaction_filters[1];
    assert_eq!(engine.compaction_filters.len(), 2);
    assert_eq!(last, &bytes("y"));
}

#[test]
fn locations_change_and_results_do_not() {
    let mut engine = plain();
    put(&mut engine, "a", "1");
    assert_eq!(scan_all(&engine), ["a:1"]);
    freeze(&mut engine);
    assert_eq!(scan_all(&engine), ["a:1"]);
    put(&mut engine, "a", "2");
    put(&mut engine, "b", "3");
    assert_eq!(scan_all(&engine), ["a:2", "b:3"]);
    freeze(&mut engine);
    assert_eq!(scan_all(&engine), ["a:2", "b:3"]);
    delete(&mut engine, "b");
    assert_eq!(scan_all(&engine), ["a:2"]);
    flush(&mut engine);
    flush(&mut engine);
    assert_eq!(scan_all(&engine), ["a:2"]);
    assert_eq!(get(&engine, "a"), Some(String::from("2")));
    assert_eq!(get(&engine, "b"), None);
}

#[test]
fn scans_skip_tables_outside_the_range() {
    let mut engine = new_engine(LsmStorageOptions::default_for_week2_test(leveled()));
    add_table(&mut engine.state, 10, &[("a", "1"), ("c", "1")]);
    add_table(&mut engine.state, 11, &[("m", "1"), ("p", "1")]);
    add_table(&mut engine.state, 12, &[("a", "0"), ("b", "0")]);
    add_table(&mut engine.state, 13, &[("x", "0"), ("z", "0")]);
    engine.state.l0_sstables = vec![11, 10];
    engine.state.levels[0].1 = vec![12, 13];
    engine.next_sst_id = 14;
    assert!(engine.is_sound());
    let count = |lower: Bound<&[u8]>, upper: Bound<&[u8]>| {
        engine.scan(lower, upper).unwrap().num_active_iterators()
    };
    let levels = engine.state.levels.len();
    // The memtable, the L0 tables that overlap, and the levels.
    assert_eq!(count(Bound::Unbounded, Bound::Unbounded), 1 + 2 + levels);
    assert_eq!(count(Bound::Included(b"d"), Bound::Excluded(b"m")), 1 + levels);
    assert_eq!(count(Bound::Included(b"c"), Bound::Excluded(b"m")), 1 + 1 + levels);
    assert_eq!(count(Bound::Excluded(b"c"), Bound::Included(b"m")), 1 + 1 + levels);
    let kept = |lower: Bound<&[u8]>, upper: Bound<&[u8]>| -> Vec<usize> {
        let tables = engine.state.level_tables(&engine.state.levels[0].1, lower, upper);
        tables.iter().map(|t| t.sst_id()).collect()
    };
    assert_eq!(kept(Bound::Unbounded, Bound::Unbounded), vec![12, 13]);
    assert_eq!(kept(Bound::Excluded(b"b"), Bound::Unbounded), vec![13]);
    assert_eq!(kept(Bound::Unbounded, Bound::Excluded(b"x")), vec![12]);
    assert!(kept(Bound::Excluded(b"b"), Bound::Excluded(b"x")).is_empty());
    let at = |key: &[u8]| -> Vec<usize> {
        let tables = engine.state.level_tables_at(&engine.state.levels[0].1, key);
        tables.iter().map(|t| t.sst_id()).collect()
    };
    assert_eq!(at(b"a"), vec![12]);
    assert_eq!(at(b"z"), vec![13]);
    assert!(at(b"m").is_empty());
}

#[test]
fn a_batch_leaves_the_memtable_below_the_target() {
    let mut options = LsmStorageOptions::default_for_week1_test();
    options.target_sst_size = 3;
    let mut engine = new_engine(options);
    write(
        &mut engine,
        &[
            WriteBatchRecord::Put(b"a", b"1"),
            WriteBatchRecord::Put(b"a", b"2"),
            WriteBatchRecord::Put(b"b", b"333"),
            WriteBatchRecord::Put(b"c", b"4"),
        ],
    );
    assert_eq!(engine.state.memtable.approximate_size(), 2);
    let ids: Vec<usize> = engine.state.imm_memtables.iter().map(|m| m.id()).collect();
    assert_eq!(ids, vec![1, 0]);
    assert!(engine.state.imm_memtables.iter().all(|m| !m.is_empty()));
    // The last record of a key decides.
    assert_eq!(scan_all(&engine), ["a:2", "b:333", "c:4"]);
}

#[test]
fn a_deletion_is_kept_as_an_empty_value() {
    let mut engine = three_sources();
    delete(&mut engine, "c");
    assert_eq!(engine.state.memtable.get(b"c"), Some(Bytes::new()));
    assert_eq!(get(&engine, "c"), None);
    delete(&mut engine, "never");
    assert_eq!(engine.state.memtable.get(b"never"), Some(Bytes::new()));
    assert_eq!(get(&engine, "never"), None);
}

#[test]
fn soundness_is_told_from_the_layout() {
    assert!(three_sources().is_sound());
    // The tables of a level are out of order, overlap, or are missing.
    let mut engine = new_engine(LsmStorageOptions::default_for_week2_test(leveled()));
    add_table(&mut engine.state, 10, &[("a", "1"), ("c", "1")]);
    add_table(&mut engine.state, 11, &[("c", "2"), ("e", "2")]);
    add_table(&mut engine.state, 12, &[("x", "3")]);
    engine.next_sst_id = 13;
    engine.state.levels[0].1 = vec![10, 12];
    assert!(engine.is_sound());
    engine.state.levels[0].1 = vec![12, 10];
    assert!(!engine.is_sound());
    engine.state.levels[0].1 = vec![10, 11];
    assert!(!engine.is_sound());
    engine.state.levels[0].1 = vec![10, 99];
    assert!(!engine.is_sound());
    engine.state.levels[0].1 = vec![];
    engine.state.l0_sstables = vec![99];
    assert!(!engine.is_sound());
    engine.state.l0_sstables = vec![11, 10];
    assert!(engine.is_sound());
    // An id that is used already would be given away.
    engine.next_sst_id = 12;
    assert!(!engine.is_sound());
    // A table has the id of the memtable.
    let mut engine = plain();
    add_table(&mut engine.state, 0, &[("a", "1")]);
    assert!(!engine.is_sound());
    // Tiers leave L0 empty.
    let mut engine = new_engine(LsmStorageOptions::default_for_week2_test(tiered()));
    add_table(&mut engine.state, 5, &[("a", "1")]);
    engine.next_sst_id = 6;
    engine.state.l0_sstables = vec![5];
    assert!(!engine.is_sound());
    // The empty key marks the end of a memory cursor.
    let mut engine = plain();
    engine.state.memtable.put(b"", b"1");
    assert!(!engine.is_sound());
    // The ids of immutable memtables decrease.
    let mut engine = three_sources();
    put(&mut engine, "e", "5");
    freeze(&mut engine);
    assert!(engine.is_sound());
    engine.state.imm_memtables.reverse();
    assert!(!engine.is_sound());
}
