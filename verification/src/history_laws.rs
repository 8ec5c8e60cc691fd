//! What holds of a store over its whole life, however often it is closed and opened again.

use vstd::prelude::*;
use crate::laws;
use crate::lsm_storage::actions::{ActionView, ManifestRecord};
use crate::lsm_storage::model;
use crate::lsm_storage::recovery;
use crate::lsm_storage::recovery::RecoveryView;
use crate::lsm_storage::steps;
use crate::lsm_storage::steps::{CloseStepView, EngineView, ForceFlushStepView, WriteStepView};
use crate::lsm_storage::LsmStorageOptions;
use crate::mem_table;
use crate::mem_table::MemView;
use crate::recovery_laws;
use crate::run::{Entries, Run};
use crate::table::TableView;

verus! {

/// What is on disk: whether there is a manifest, what replaying it leaves, the tables, and the
/// records of the logs.
#[verifier::ext_equal]
pub struct DiskView {
    pub has_manifest: bool,
    pub manifest: RecoveryView,
    pub tables: Map<usize, TableView>,
    pub logs: Map<usize, Run<Seq<u8>>>,
    /// Some action could not be performed, or came too early.
    pub failed: bool,
}

/// The action can be performed, and nothing is lost by it. There must be a manifest to record
/// something, and a log to write to. A memtable is recorded when it has a log, a flush when its
/// memtable is pending and its table is there, and a log goes when its memtable is not pending.
pub open spec fn can_perform(d: DiskView, action: ActionView) -> bool {
    match action {
        ActionView::AppendWal(id, _, _) => d.logs.contains_key(id),
        ActionView::SyncWal(id) => d.logs.contains_key(id),
        ActionView::RemoveWal(id) => d.logs.contains_key(id) && !d.manifest.pending.contains(id),
        ActionView::AddRecord(ManifestRecord::NewMemtable(id)) => d.has_manifest
            && (d.manifest.options.enable_wal ==> d.logs.contains_key(id)),
        ActionView::AddRecord(ManifestRecord::Flush(id)) => d.has_manifest
            && d.manifest.pending.contains(id) && d.tables.contains_key(id),
        _ => true,
    }
}

/// The disk after an action.
pub open spec fn performed(d: DiskView, action: ActionView) -> DiskView {
    if can_perform(d, action) {
        changed(d, action)
    } else {
        DiskView { failed: true, ..d }
    }
}

/// What an action that can be performed changes.
pub open spec fn changed(d: DiskView, action: ActionView) -> DiskView {
    match action {
        ActionView::CreateWal(id) => DiskView { logs: d.logs.insert(id, Seq::empty()), ..d },
        ActionView::AppendWal(id, k, v) => DiskView {
            logs: d.logs.insert(id, d.logs[id].push((k, v))),
            ..d
        },
        ActionView::SyncWal(_) => d,
        ActionView::RemoveWal(id) => DiskView { logs: d.logs.remove(id), ..d },
        ActionView::WriteSst(t) => DiskView { tables: d.tables.insert(t.id, t), ..d },
        ActionView::SyncDir => d,
        ActionView::CreateManifest => DiskView {
            has_manifest: true,
            manifest: recovery::unread(d.manifest.options),
            ..d
        },
        ActionView::AddRecord(record) => DiskView {
            manifest: recovery::replayed(d.manifest, record),
            ..d
        },
    }
}

/// The disk after actions, one after the other.
pub open spec fn performed_all(d: DiskView, actions: Seq<ActionView>) -> DiskView
    decreases actions.len(),
{
    if actions.len() == 0 {
        d
    } else {
        performed_all(performed(d, actions[0]), actions.drop_first())
    }
}

/// A store: the engine and its disk.
#[verifier::ext_equal]
pub struct StoreView {
    pub engine: EngineView,
    pub disk: DiskView,
}

/// The engine took a step, and its actions were performed.
pub open spec fn stepped(s: StoreView, e: EngineView, actions: Seq<ActionView>) -> StoreView {
    StoreView { engine: e, disk: performed_all(s.disk, actions) }
}

/// A directory without files. There is no manifest in it that could be read or added to.
pub open spec fn empty_disk(options: LsmStorageOptions) -> DiskView {
    DiskView {
        has_manifest: false,
        manifest: recovery::unread(options),
        tables: Map::empty(),
        logs: Map::empty(),
        failed: false,
    }
}

/// A store that was just made, in a directory without files.
pub open spec fn new_store(options: LsmStorageOptions) -> StoreView {
    StoreView {
        engine: recovery::new_engine(options),
        disk: performed_all(empty_disk(options), recovery::creation_actions(options)),
    }
}

/// The memtable was frozen: first the new one was made known, then it took over.
pub open spec fn froze(s: StoreView) -> StoreView {
    let t = stepped(s, steps::id_taken(s.engine), steps::freeze_actions(s.engine));
    stepped(
        t,
        steps::frozen(t.engine, steps::replacement(s.engine)),
        steps::sync_actions(t.engine.state.memtable),
    )
}

/// The rest of a batch was written: every step was taken, and the actions that it handed out were
/// performed.
pub open spec fn ran_batch(
    s: StoreView,
    entries: Seq<(Seq<u8>, Seq<u8>)>,
    step: WriteStepView,
) -> StoreView
    decreases
            entries.len() - match step {
                WriteStepView::Begin => 0,
                WriteStepView::Put(i) => i,
                WriteStepView::TryFreeze(i, _) => i,
                WriteStepView::Publish(i, _) => i,
                WriteStepView::Done => entries.len() as int,
            },
            match step {
                WriteStepView::Begin => 3int,
                WriteStepView::Put(_) => 2,
                WriteStepView::TryFreeze(_, _) => 1,
                WriteStepView::Publish(_, _) => 0,
                WriteStepView::Done => 0,
            },
{
    let (f, next) = steps::write_step(s.engine, entries, step);
    let t = stepped(s, f, steps::write_actions(s.engine, entries, step));
    match step {
        WriteStepView::Begin => ran_batch(t, entries, next),
        WriteStepView::Put(i) => if i < entries.len() {
            ran_batch(t, entries, next)
        } else {
            t
        },
        WriteStepView::TryFreeze(i, _) => if i < entries.len() {
            ran_batch(t, entries, next)
        } else {
            t
        },
        WriteStepView::Publish(i, _) => if i < entries.len() {
            ran_batch(t, entries, next)
        } else {
            t
        },
        WriteStepView::Done => t,
    }
}

/// A batch was written.
pub open spec fn wrote_batch(s: StoreView, entries: Seq<(Seq<u8>, Seq<u8>)>) -> StoreView {
    ran_batch(s, entries, WriteStepView::Begin)
}

/// An entry was written.
pub open spec fn wrote(s: StoreView, k: Seq<u8>, v: Seq<u8>) -> StoreView {
    wrote_batch(s, seq![(k, v)])
}

/// The earliest immutable memtable was flushed: first the table was written, then it took the
/// memtable's place.
pub open spec fn flushed(s: StoreView) -> StoreView {
    let table = steps::table_of(s.engine.state.imm_memtables.last());
    let t = stepped(s, s.engine, steps::flush_actions(table));
    stepped(t, steps::installed(t.engine, table), steps::install_actions(t.engine, table))
}

/// All immutable memtables were flushed.
pub open spec fn drained(s: StoreView) -> StoreView
    decreases s.engine.state.imm_memtables.len(),
{
    if s.engine.state.imm_memtables.len() == 0 {
        s
    } else {
        drained(flushed(s))
    }
}

/// The rest of closing the store was done: every step was taken, and the actions that it handed out
/// were performed.
pub open spec fn ran_close(s: StoreView, step: CloseStepView) -> StoreView
    decreases
            match step {
                CloseStepView::Begin => 3int,
                CloseStepView::Save => 2,
                _ => 1,
            },
            s.engine.state.imm_memtables.len(),
            match step {
                CloseStepView::Drain => 1int,
                _ => 0,
            },
{
    let (f, next) = steps::close_step(s.engine, step);
    let t = stepped(s, f, steps::close_actions(s.engine, step));
    match step {
        CloseStepView::Begin => ran_close(t, next),
        CloseStepView::Save => if next is Drain {
            ran_close(t, next)
        } else {
            t
        },
        CloseStepView::Drain => if next is Install {
            ran_close(t, next)
        } else {
            t
        },
        CloseStepView::Install(_) => if s.engine.state.imm_memtables.len() > 0 {
            ran_close(t, next)
        } else {
            t
        },
        CloseStepView::Done => t,
    }
}

/// The store was closed.
pub open spec fn closed(s: StoreView) -> StoreView {
    ran_close(s, CloseStepView::Begin)
}

/// The store took one step of a forced flush, and its actions were performed.
pub open spec fn forced(s: StoreView, step: ForceFlushStepView) -> StoreView {
    stepped(
        s,
        steps::force_flush_step(s.engine, step).0,
        steps::force_flush_actions(s.engine, step),
    )
}

/// The store was flushed by force.
pub open spec fn force_flushed(s: StoreView) -> StoreView {
    let step1 = steps::force_flush_step(s.engine, ForceFlushStepView::Begin).1;
    let s1 = forced(s, ForceFlushStepView::Begin);
    let step2 = steps::force_flush_step(s1.engine, step1).1;
    let s2 = forced(s1, step1);
    let step3 = steps::force_flush_step(s2.engine, step2).1;
    let s3 = forced(s2, step2);
    forced(s3, step3)
}

/// The tables that a manifest names, as they are on disk.
pub open spec fn tables_on(d: DiskView) -> Seq<TableView> {
    d.manifest.table_ids().map_values(|id: usize| d.tables[id])
}

/// The logs of the memtables that were not flushed, in the order of their ids, as they are on
/// disk.
pub open spec fn are_logs_on(d: DiskView, logs: Seq<(usize, Run<Seq<u8>>)>) -> bool {
    &&& recovery::ascending(
        logs.map_values(|l: (usize, Run<Seq<u8>>)| l.0),
        d.manifest.pending,
    )
    &&& forall|i: int| 0 <= i < logs.len() ==> (#[trigger] logs[i]).1 == d.logs[logs[i].0]
}

pub open spec fn logs_on(d: DiskView) -> Seq<(usize, Run<Seq<u8>>)> {
    choose|logs: Seq<(usize, Run<Seq<u8>>)>| are_logs_on(d, logs)
}

/// An engine was started on what is on disk.
pub open spec fn opened(s: StoreView) -> StoreView {
    let d = s.disk;
    stepped(
        s,
        recovery::recovered(d.manifest, tables_on(d), logs_on(d)),
        recovery::recovery_actions(d.manifest),
    )
}

/// A compaction took effect: its tables were written, and the manifest knows of it.
pub open spec fn compacted(
    s: StoreView,
    engine: EngineView,
    l0_sstables: Seq<usize>,
    levels: Seq<(usize, Seq<usize>)>,
    output: Seq<usize>,
) -> StoreView {
    StoreView {
        engine,
        disk: DiskView {
            manifest: recovery::compacted(s.disk.manifest, l0_sstables, levels, output),
            tables: s.disk.tables.union_prefer_right(engine.state.sstables),
            ..s.disk
        },
    }
}

/// What can be done with a store.
pub enum Operation {
    /// Writes an entry; an empty value deletes.
    Write(Seq<u8>, Seq<u8>),
    /// Writes the entries of a batch in order.
    Batch(Seq<(Seq<u8>, Seq<u8>)>),
    /// Freezes the memtable.
    Freeze,
    /// Flushes the earliest immutable memtable.
    Flush,
    /// Freezes what is in memory and flushes.
    ForceFlush,
    /// Compacts tables into others, which leaves an engine and a record.
    Compact {
        engine: EngineView,
        l0_sstables: Seq<usize>,
        levels: Seq<(usize, Seq<usize>)>,
        output: Seq<usize>,
    },
    /// Closes the store and opens it again.
    Restart,
}

pub open spec fn applied(s: StoreView, op: Operation) -> StoreView {
    match op {
        Operation::Write(k, v) => wrote(s, k, v),
        Operation::Batch(entries) => wrote_batch(s, entries),
        Operation::Freeze => froze(s),
        Operation::Flush => flushed(s),
        Operation::ForceFlush => force_flushed(s),
        Operation::Compact { engine, l0_sstables, levels, output } => compacted(
            s,
            engine,
            l0_sstables,
            levels,
            output,
        ),
        Operation::Restart => opened(closed(s)),
    }
}

/// Both engines answer every read alike.
pub open spec fn same_reads(e: EngineView, f: EngineView) -> bool {
    forall|k: Seq<u8>| #[trigger] f.state.lookup(k) == e.state.lookup(k)
}

/// Every table is held by its own id.
pub open spec fn own_ids(e: EngineView) -> bool {
    forall|id: usize| #[trigger]
        e.state.sstables.contains_key(id) ==> e.state.sstables[id].id == id
}

/// The operation makes sense: there are ids left, keys are not empty, only memtables that hold
/// something are frozen, only those that are there are flushed, and a compaction changes no read.
pub open spec fn allowed(s: StoreView, op: Operation) -> bool {
    &&& s.engine.next_sst_id + 3 <= usize::MAX
    &&& match op {
        Operation::Write(k, _) => k.len() > 0,
        Operation::Batch(entries) => {
            &&& s.engine.next_sst_id + entries.len() <= usize::MAX
            &&& forall|i: int| 0 <= i < entries.len() ==> (#[trigger] entries[i]).0.len() > 0
        },
        Operation::Freeze => s.engine.state.memtable.entries != Entries::empty(),
        Operation::Flush => s.engine.state.imm_memtables.len() > 0,
        Operation::ForceFlush => true,
        Operation::Compact { engine, l0_sstables, levels, output } => {
            &&& recovery_laws::is_compaction(s.engine, engine, l0_sstables, levels, output)
            &&& engine.wf()
            &&& own_ids(engine)
            &&& same_reads(s.engine, engine)
        },
        Operation::Restart => true,
    }
}

/// A store after operations.
pub open spec fn after(s: StoreView, ops: Seq<Operation>) -> StoreView
    decreases ops.len(),
{
    if ops.len() == 0 {
        s
    } else {
        applied(after(s, ops.drop_last()), ops.last())
    }
}

/// Every operation makes sense when its turn comes.
pub open spec fn all_allowed(s: StoreView, ops: Seq<Operation>) -> bool
    decreases ops.len(),
{
    ops.len() > 0 ==> all_allowed(s, ops.drop_last()) && allowed(
        after(s, ops.drop_last()),
        ops.last(),
    )
}

/// What the operations wrote, deletions as empty values.
pub open spec fn written_by(ops: Seq<Operation>) -> Entries
    decreases ops.len(),
{
    if ops.len() == 0 {
        Map::empty()
    } else {
        match ops.last() {
            Operation::Write(k, v) => written_by(ops.drop_last()).insert(k, v),
            Operation::Batch(entries) => laws::apply_all(written_by(ops.drop_last()), entries),
            _ => written_by(ops.drop_last()),
        }
    }
}

/// Every table of the engine is on disk.
pub open spec fn tables_kept(s: StoreView) -> bool {
    &&& own_ids(s.engine)
    &&& forall|id: usize| #[trigger]
        s.engine.state.sstables.contains_key(id) ==> s.disk.tables.contains_key(id)
            && s.disk.tables[id] == s.engine.state.sstables[id]
}

/// Every memtable that the manifest takes for pending has a log, which holds what the memtable
/// holds, or nothing where there is no such memtable.
pub open spec fn logs_kept(s: StoreView) -> bool {
    let mems = recovery_laws::memtables(s.engine);
    &&& s.engine.state.memtable.logged
    &&& forall|id: usize| #[trigger]
        s.disk.manifest.pending.contains(id) ==> s.disk.logs.contains_key(id)
    &&& forall|id: usize, j: int|
        #![trigger s.disk.manifest.pending.contains(id), mems[j]]
        s.disk.manifest.pending.contains(id) && 0 <= j < mems.len() && mems[j].id == id
            ==> mem_table::replay(s.disk.logs[id]) == mems[j].entries
    &&& forall|id: usize|
        s.disk.manifest.pending.contains(id) && !recovery_laws::has_id(mems, id)
            ==> mem_table::replay(#[trigger] s.disk.logs[id]) == Entries::empty()
}

/// The disk keeps what the engine holds, but for what is in memory without logs.
pub open spec fn kept(s: StoreView) -> bool {
    &&& s.disk.has_manifest
    &&& !s.disk.failed
    &&& s.engine.state.memtable.logged == s.engine.options.enable_wal
    &&& s.engine.wf()
    &&& laws::nothing_idle(s.engine)
    &&& recovery_laws::mirrors_frozen(s.disk.manifest, s.engine)
    &&& s.disk.manifest.pending.finite()
    &&& tables_kept(s)
    &&& s.engine.options.enable_wal ==> logs_kept(s)
}

/// The store can be used.
pub open spec fn in_use(s: StoreView) -> bool {
    kept(s) && recovery_laws::mirrors(s.disk.manifest, s.engine)
}

proof fn performed_none(d: DiskView)
    ensures
        performed_all(d, Seq::empty()) == d,
{
}

proof fn performed_one(d: DiskView, a: ActionView)
    ensures
        performed_all(d, seq![a]) == performed(d, a),
{
    reveal_with_fuel(performed_all, 2);
}

proof fn performed_two(d: DiskView, a: ActionView, b: ActionView)
    ensures
        performed_all(d, seq![a, b]) == performed(performed(d, a), b),
{
    assert(seq![a, b].drop_first() =~= seq![b]);
    performed_one(performed(d, a), b);
}

proof fn performed_three(d: DiskView, a: ActionView, b: ActionView, c: ActionView)
    ensures
        performed_all(d, seq![a, b, c]) == performed(performed(performed(d, a), b), c),
{
    assert(seq![a, b, c].drop_first() =~= seq![b, c]);
    performed_two(performed(d, a), b, c);
}

proof fn sync_changes_nothing(d: DiskView, m: MemView)
    requires
        m.logged ==> d.logs.contains_key(m.id),
    ensures
        performed_all(d, steps::sync_actions(m)) == d,
{
    match mem_table::log_of(m) {
        Some(id) => performed_one(d, ActionView::SyncWal(id)),
        None => performed_none(d),
    }
}

/// Reads depend on what the store holds alone.
proof fn same_contents_same_reads(e: EngineView, f: EngineView)
    requires
        f.contents() == e.contents(),
    ensures
        same_reads(e, f),
{
}

/// The current memtable has a log, if it should have one.
proof fn current_has_log(s: StoreView)
    requires
        in_use(s),
    ensures
        s.engine.state.memtable.logged ==> s.disk.logs.contains_key(s.engine.state.memtable.id),
{
    assert(s.disk.manifest.pending.contains(s.engine.state.memtable.id));
}

/// What making a new memtable known leaves.
proof fn known_is(s: StoreView)
    requires
        in_use(s),
    ensures
        ({
            let id = s.engine.next_sst_id;
            performed_all(s.disk, steps::freeze_actions(s.engine)) == DiskView {
                manifest: recovery::replayed(s.disk.manifest, ManifestRecord::NewMemtable(id)),
                logs: if s.engine.options.enable_wal {
                    s.disk.logs.insert(id, Seq::empty())
                } else {
                    s.disk.logs
                },
                ..s.disk
            }
        }),
{
    let id = s.engine.next_sst_id;
    let record = ActionView::AddRecord(ManifestRecord::NewMemtable(id));
    if s.engine.options.enable_wal {
        performed_three(s.disk, ActionView::CreateWal(id), ActionView::SyncDir, record);
    } else {
        performed_one(s.disk, record);
    }
}

/// What a freeze leaves.
proof fn froze_is(s: StoreView)
    requires
        in_use(s),
    ensures
        froze(s).engine == steps::frozen(
            steps::id_taken(s.engine),
            steps::replacement(s.engine),
        ),
        froze(s).disk == performed_all(s.disk, steps::freeze_actions(s.engine)),
{
    known_is(s);
    current_has_log(s);
    sync_changes_nothing(
        performed_all(s.disk, steps::freeze_actions(s.engine)),
        s.engine.state.memtable,
    );
}

/// A memtable that is known takes over.
proof fn publish_keeps_store(s: StoreView, m: MemView)
    requires
        in_use(s),
        s.engine.state.memtable.entries != Entries::empty(),
        m == mem_table::fresh(m.id, s.engine.options.enable_wal),
        steps::can_publish(s.engine, m),
        s.disk.manifest.pending.contains(m.id),
    ensures
        in_use(
            stepped(
                s,
                steps::frozen(s.engine, m),
                steps::sync_actions(s.engine.state.memtable),
            ),
        ),
        performed_all(s.disk, steps::sync_actions(s.engine.state.memtable)) == s.disk,
        steps::frozen(s.engine, m).contents() == s.engine.contents(),
{
    let e = s.engine;
    let t = stepped(s, steps::frozen(e, m), steps::sync_actions(e.state.memtable));
    current_has_log(s);
    sync_changes_nothing(s.disk, e.state.memtable);
    steps::frozen_keeps_wf(e, m);
    laws::nothing_idle_through_freeze(e, m);
    laws::freeze_keeps_contents(e, m);
    let before = recovery_laws::memtables(e);
    let mems = recovery_laws::memtables(t.engine);
    assert forall|j: int| 0 <= j < mems.len() implies #[trigger] mems[j] == if j == 0 {
        m
    } else {
        before[j - 1]
    } by {}
    assert forall|i: int| 0 <= i < t.engine.state.imm_memtables.len() implies
        t.disk.manifest.pending.contains((#[trigger] t.engine.state.imm_memtables[i]).id) by {
        if i > 0 {
            assert(t.engine.state.imm_memtables[i] == e.state.imm_memtables[i - 1]);
        }
    }
    if e.options.enable_wal {
        ids_decrease(e);
        assert(!recovery_laws::has_id(before, m.id)) by {
            assert forall|j: int| 0 <= j < before.len() implies (#[trigger] before[j]).id
                < m.id by {
                if j > 0 {
                    assert(before[0].id > before[j].id);
                }
            }
        }
        assert forall|id: usize, j: int|
            #![trigger t.disk.manifest.pending.contains(id), mems[j]]
            t.disk.manifest.pending.contains(id) && 0 <= j < mems.len() && mems[j].id
                == id implies mem_table::replay(t.disk.logs[id]) == mems[j].entries by {
            if j > 0 {
                assert(before[j - 1].id == id);
                assert(s.disk.manifest.pending.contains(id));
            }
        }
        assert forall|id: usize|
            t.disk.manifest.pending.contains(id) && !recovery_laws::has_id(
                mems,
                id,
            ) implies mem_table::replay(#[trigger] t.disk.logs[id]) == Entries::empty() by {
            if recovery_laws::has_id(before, id) {
                let j = choose|j: int| 0 <= j < before.len() && (#[trigger] before[j]).id == id;
                assert(mems[j + 1].id == id);
            }
        }
    }
}

/// **A freeze keeps the store**, and no read changes.
pub proof fn freeze_keeps_store(s: StoreView)
    requires
        in_use(s),
        s.engine.state.memtable.entries != Entries::empty(),
        s.engine.next_sst_id < usize::MAX,
    ensures
        in_use(froze(s)),
        same_reads(s.engine, froze(s).engine),
        froze(s).engine.contents() == s.engine.contents(),
        froze(s).engine.options == s.engine.options,
        froze(s).engine.next_sst_id == s.engine.next_sst_id + 1,
{
    let t = stepped(s, steps::id_taken(s.engine), steps::freeze_actions(s.engine));
    known_is(s);
    known_memtable_keeps_store(s);
    steps::replacement_is_free(s.engine);
    publish_keeps_store(t, steps::replacement(s.engine));
    same_contents_same_reads(s.engine, froze(s).engine);
}

/// Later memtables have larger ids.
proof fn ids_decrease(e: EngineView)
    requires
        e.wf(),
    ensures
        forall|i: int, j: int|
            0 <= i < j < recovery_laws::memtables(e).len() ==> (
            #[trigger] recovery_laws::memtables(e)[i]).id > (
            #[trigger] recovery_laws::memtables(e)[j]).id,
{
    ids_below_next(e);
}

/// Memtables have ids of their own, which are below the next one.
proof fn ids_below_next(e: EngineView)
    requires
        e.wf(),
    ensures
        forall|j: int|
            0 <= j < recovery_laws::memtables(e).len() ==> (
            #[trigger] recovery_laws::memtables(e)[j]).id < e.next_sst_id,
        forall|i: int, j: int|
            0 <= i < j < recovery_laws::memtables(e).len() ==> (
            #[trigger] recovery_laws::memtables(e)[i]).id > (
            #[trigger] recovery_laws::memtables(e)[j]).id,
{
    let mems = recovery_laws::memtables(e);
    assert forall|j: int| 0 <= j < mems.len() implies #[trigger] mems[j] == if j == 0 {
        e.state.memtable
    } else {
        e.state.imm_memtables[j - 1]
    } by {}
}

/// A log that no memtable writes to may be made anew.
proof fn spare_log(s: StoreView, id: usize)
    requires
        in_use(s),
        !recovery_laws::has_id(recovery_laws::memtables(s.engine), id),
    ensures
        in_use(StoreView { disk: performed(s.disk, ActionView::CreateWal(id)), ..s }),
{
    let t = StoreView { disk: performed(s.disk, ActionView::CreateWal(id)), ..s };
    if s.engine.options.enable_wal {
        let mems = recovery_laws::memtables(s.engine);
        assert forall|x: usize, j: int|
            #![trigger t.disk.manifest.pending.contains(x), mems[j]]
            t.disk.manifest.pending.contains(x) && 0 <= j < mems.len() && mems[j].id
                == x implies mem_table::replay(t.disk.logs[x]) == mems[j].entries by {
            assert(x != id);
            assert(s.disk.manifest.pending.contains(x));
        }
        assert forall|x: usize|
            t.disk.manifest.pending.contains(x) && !recovery_laws::has_id(
                mems,
                x,
            ) implies mem_table::replay(#[trigger] t.disk.logs[x]) == Entries::empty() by {
            if x != id {
                assert(t.disk.logs[x] == s.disk.logs[x]);
            }
        }
    }
}

/// The next id may be given away.
proof fn id_taken_keeps_store(s: StoreView)
    requires
        in_use(s),
        s.engine.next_sst_id < usize::MAX,
    ensures
        in_use(StoreView { engine: steps::id_taken(s.engine), ..s }),
{
    let t = StoreView { engine: steps::id_taken(s.engine), ..s };
    steps::replacement_is_free(s.engine);
    assert(recovery_laws::memtables(t.engine) == recovery_laws::memtables(s.engine));
}

/// When the new memtable is known but did not take over, the store is kept as it was.
proof fn known_memtable_keeps_store(s: StoreView)
    requires
        in_use(s),
        s.engine.next_sst_id < usize::MAX,
    ensures
        in_use(stepped(s, steps::id_taken(s.engine), steps::freeze_actions(s.engine))),
{
    let e = s.engine;
    let t = stepped(s, steps::id_taken(e), steps::freeze_actions(e));
    let m = steps::replacement(e);
    known_is(s);
    recovery_laws::manifest_through_freeze(s.disk.manifest, e);
    steps::replacement_is_free(e);
    if e.options.enable_wal {
        let mems = recovery_laws::memtables(e);
        assert(recovery_laws::memtables(t.engine) == mems);
        ids_below_next(e);
        assert forall|id: usize, j: int|
            #![trigger t.disk.manifest.pending.contains(id), mems[j]]
            t.disk.manifest.pending.contains(id) && 0 <= j < mems.len() && mems[j].id
                == id implies mem_table::replay(t.disk.logs[id]) == mems[j].entries by {
            assert(id < m.id);
            assert(s.disk.manifest.pending.contains(id));
        }
        assert forall|id: usize|
            t.disk.manifest.pending.contains(id) && !recovery_laws::has_id(
                mems,
                id,
            ) implies mem_table::replay(#[trigger] t.disk.logs[id]) == Entries::empty() by {
            if id != m.id {
                assert(t.disk.logs[id] == s.disk.logs[id]);
            }
        }
    }
}

/// **A freeze can be interrupted** after any of its actions: as long as the new memtable did not
/// take over, the store is kept as it was.
pub proof fn freeze_can_be_interrupted(s: StoreView, n: int)
    requires
        in_use(s),
        s.engine.next_sst_id < usize::MAX,
        0 <= n <= steps::freeze_actions(s.engine).len(),
    ensures
        in_use(stepped(s, steps::id_taken(s.engine), steps::freeze_actions(s.engine).take(n))),
        steps::id_taken(s.engine).contents() == s.engine.contents(),
{
    let e = s.engine;
    let actions = steps::freeze_actions(e);
    let done = actions.take(n);
    if n == actions.len() {
        assert(done =~= actions);
        known_memtable_keeps_store(s);
    } else {
        let t = StoreView { engine: steps::id_taken(e), ..s };
        id_taken_keeps_store(s);
        if n == 0 {
            assert(done =~= Seq::empty());
            performed_none(s.disk);
        } else {
            let create = ActionView::CreateWal(e.next_sst_id);
            ids_below_next(e);
            spare_log(t, e.next_sst_id);
            if n == 1 {
                assert(done =~= seq![create]);
                performed_one(s.disk, create);
            } else {
                assert(done =~= seq![create, ActionView::SyncDir]);
                performed_two(s.disk, create, ActionView::SyncDir);
            }
        }
    }
}

/// **A flush can be interrupted before it is recorded**, after any action up to there: the table
/// may be on disk, but it is not part of the store, which is kept as it was.
pub proof fn flush_can_be_interrupted(s: StoreView, n: int)
    requires
        kept(s),
        s.engine.state.imm_memtables.len() > 0,
        0 <= n <= 2,
    ensures
        ({
            let table = steps::table_of(s.engine.state.imm_memtables.last());
            let t = stepped(s, s.engine, steps::flush_actions(table).take(n));
            kept(t) && (in_use(s) ==> in_use(t))
        }),
{
    let table = steps::table_of(s.engine.state.imm_memtables.last());
    let write = ActionView::WriteSst(table);
    let done = steps::flush_actions(table).take(n);
    steps::new_table_is_alone(s.engine, table);
    if n == 0 {
        assert(done =~= Seq::empty());
        performed_none(s.disk);
    } else if n == 1 {
        assert(done =~= seq![write]);
        performed_one(s.disk, write);
    } else {
        assert(done =~= seq![write, ActionView::SyncDir]);
        performed_two(s.disk, write, ActionView::SyncDir);
    }
}

/// **A flush can be interrupted once it is recorded**, after any action from there on: the table is
/// part of the store, the memtable is not, no read changes, and a log that was not removed is not
/// looked at.
pub proof fn recorded_flush_can_be_interrupted(s: StoreView, n: int)
    requires
        kept(s),
        s.engine.state.imm_memtables.len() > 0,
        1 <= n <= steps::install_actions(
            s.engine,
            steps::table_of(s.engine.state.imm_memtables.last()),
        ).len(),
    ensures
        ({
            let table = steps::table_of(s.engine.state.imm_memtables.last());
            let written = stepped(s, s.engine, steps::flush_actions(table));
            let t = stepped(
                written,
                steps::installed(s.engine, table),
                steps::install_actions(s.engine, table).take(n),
            );
            &&& kept(t)
            &&& in_use(s) ==> in_use(t)
            &&& t.engine.contents() == s.engine.contents()
        }),
{
    let e = s.engine;
    let table = steps::table_of(e.state.imm_memtables.last());
    let written = stepped(s, e, steps::flush_actions(table));
    let actions = steps::install_actions(e, table);
    let done = actions.take(n);
    let t = stepped(written, steps::installed(e, table), done);
    let record = ActionView::AddRecord(ManifestRecord::Flush(table.id));
    let remove = ActionView::RemoveWal(table.id);
    let all = flushed(s);
    flush_keeps_store(s);
    flushed_is(s);
    performed_two(s.disk, ActionView::WriteSst(table), ActionView::SyncDir);
    if e.options.enable_wal {
        assert(s.disk.logs.contains_key(table.id));
    }
    if n == actions.len() {
        assert(done =~= actions);
    } else if n == 1 {
        assert(done =~= seq![record]);
        performed_one(written.disk, record);
    } else {
        assert(done =~= seq![record, remove]);
        performed_two(written.disk, record, remove);
    }
    assert(t.disk.manifest == all.disk.manifest);
    assert(t.disk.tables == all.disk.tables);
    if e.options.enable_wal {
        let mems = recovery_laws::memtables(t.engine);
        assert(!t.disk.manifest.pending.contains(table.id));
        assert forall|id: usize| #[trigger] t.disk.manifest.pending.contains(
            id,
        ) implies t.disk.logs.contains_key(id) && t.disk.logs[id] == all.disk.logs[id] by {
            assert(all.disk.logs.contains_key(id));
        }
        assert forall|id: usize|
            t.disk.manifest.pending.contains(id) && !recovery_laws::has_id(
                mems,
                id,
            ) implies mem_table::replay(#[trigger] t.disk.logs[id]) == Entries::empty() by {
            assert(t.disk.logs[id] == all.disk.logs[id]);
        }
    }
}

/// **A compaction can be interrupted before it is recorded**: tables that it wrote under new ids
/// are not part of the store, which is kept as it was.
pub proof fn compaction_can_be_interrupted(s: StoreView, output: Map<usize, TableView>)
    requires
        in_use(s),
        output.dom().disjoint(s.engine.state.sstables.dom()),
    ensures
        in_use(
            StoreView {
                disk: DiskView { tables: s.disk.tables.union_prefer_right(output), ..s.disk },
                ..s
            },
        ),
{
    assert forall|id: usize| #[trigger] s.engine.state.sstables.contains_key(
        id,
    ) implies !output.contains_key(id) by {
        assert(s.engine.state.sstables.dom().contains(id));
    }
}

/// What putting a record leaves.
proof fn put_is(s: StoreView, entries: Seq<(Seq<u8>, Seq<u8>)>, i: int)
    requires
        in_use(s),
        0 <= i < entries.len(),
    ensures
        ({
            let id = s.engine.state.memtable.id;
            performed_all(
                s.disk,
                steps::write_actions(s.engine, entries, WriteStepView::Put(i)),
            ) == DiskView {
                logs: if s.engine.state.memtable.logged {
                    s.disk.logs.insert(id, s.disk.logs[id].push(entries[i]))
                } else {
                    s.disk.logs
                },
                ..s.disk
            }
        }),
{
    let m = s.engine.state.memtable;
    current_has_log(s);
    if m.logged {
        performed_one(s.disk, ActionView::AppendWal(m.id, entries[i].0, entries[i].1));
    } else {
        performed_none(s.disk);
    }
}

/// Putting a record keeps the store.
proof fn put_keeps_store(s: StoreView, entries: Seq<(Seq<u8>, Seq<u8>)>, i: int)
    requires
        in_use(s),
        0 <= i < entries.len(),
        entries[i].0.len() > 0,
    ensures
        in_use(
            stepped(
                s,
                steps::put(s.engine, entries[i].0, entries[i].1),
                steps::write_actions(s.engine, entries, WriteStepView::Put(i)),
            ),
        ),
{
    let e = s.engine;
    let (k, v) = entries[i];
    let t = stepped(
        s,
        steps::put(e, k, v),
        steps::write_actions(e, entries, WriteStepView::Put(i)),
    );
    put_is(s, entries, i);
    steps::put_keeps_wf(e, k, v);
    recovery_laws::manifest_through_put(s.disk.manifest, e, k, v);
    if e.options.enable_wal {
        let before = recovery_laws::memtables(e);
        let mems = recovery_laws::memtables(t.engine);
        let at = e.state.memtable.id;
        assert forall|j: int| 0 <= j < mems.len() implies #[trigger] mems[j] == if j == 0 {
            t.engine.state.memtable
        } else {
            before[j]
        } by {}
        ids_below_next(e);
        assert(before[0] == e.state.memtable);
        assert(s.disk.manifest.pending.contains(at));
        recovery_laws::log_through_put(e.state.memtable, s.disk.logs[at], k, v);
        assert forall|id: usize, j: int|
            #![trigger t.disk.manifest.pending.contains(id), mems[j]]
            t.disk.manifest.pending.contains(id) && 0 <= j < mems.len() && mems[j].id
                == id implies mem_table::replay(t.disk.logs[id]) == mems[j].entries by {
            if j > 0 {
                assert(before[0].id > before[j].id);
                assert(s.disk.manifest.pending.contains(id));
            }
        }
        assert forall|id: usize|
            t.disk.manifest.pending.contains(id) && !recovery_laws::has_id(
                mems,
                id,
            ) implies mem_table::replay(#[trigger] t.disk.logs[id]) == Entries::empty() by {
            assert(mems[0].id == at);
            if recovery_laws::has_id(before, id) {
                let j = choose|j: int| 0 <= j < before.len() && (#[trigger] before[j]).id == id;
                assert(mems[j].id == id);
            }
            assert(t.disk.logs[id] == s.disk.logs[id]);
        }
    }
}

/// The step is one that a batch goes through, and what it brings in is known.
spec fn batch_ready(
    s: StoreView,
    entries: Seq<(Seq<u8>, Seq<u8>)>,
    step: WriteStepView,
) -> bool {
    match step {
        WriteStepView::Begin => s.engine.next_sst_id + entries.len() <= usize::MAX,
        WriteStepView::Put(i) => {
            &&& 0 <= i <= entries.len()
            &&& s.engine.next_sst_id + entries.len() - i <= usize::MAX
        },
        WriteStepView::TryFreeze(i, _) => {
            &&& 0 <= i < entries.len()
            &&& s.engine.next_sst_id + entries.len() - i <= usize::MAX
            &&& s.engine.state.memtable.entries != Entries::empty()
        },
        WriteStepView::Publish(i, m) => {
            &&& 0 <= i < entries.len()
            &&& s.engine.next_sst_id + entries.len() - i - 1 <= usize::MAX
            &&& s.engine.state.memtable.entries != Entries::empty()
            &&& m == mem_table::fresh(m.id, s.engine.options.enable_wal)
            &&& steps::can_publish(s.engine, m)
            &&& s.disk.manifest.pending.contains(m.id)
        },
        WriteStepView::Done => true,
    }
}

proof fn ran_batch_keeps_store(
    s: StoreView,
    entries: Seq<(Seq<u8>, Seq<u8>)>,
    step: WriteStepView,
)
    requires
        in_use(s),
        batch_ready(s, entries, step),
        forall|i: int| 0 <= i < entries.len() ==> (#[trigger] entries[i]).0.len() > 0,
    ensures
        in_use(ran_batch(s, entries, step)),
        ran_batch(s, entries, step).engine == laws::write_rest(s.engine, entries, step),
    decreases
            entries.len() - match step {
                WriteStepView::Begin => 0,
                WriteStepView::Put(i) => i,
                WriteStepView::TryFreeze(i, _) => i,
                WriteStepView::Publish(i, _) => i,
                WriteStepView::Done => entries.len() as int,
            },
            match step {
                WriteStepView::Begin => 3int,
                WriteStepView::Put(_) => 2,
                WriteStepView::TryFreeze(_, _) => 1,
                WriteStepView::Publish(_, _) => 0,
                WriteStepView::Done => 0,
            },
{
    let e = s.engine;
    let (f, next) = steps::write_step(e, entries, step);
    let t = stepped(s, f, steps::write_actions(e, entries, step));
    performed_none(s.disk);
    match step {
        WriteStepView::Begin => {
            ran_batch_keeps_store(t, entries, next);
        },
        WriteStepView::Put(i) => {
            if i < entries.len() {
                put_keeps_store(s, entries, i);
                assert(f.state.memtable.entries.contains_key(entries[i].0));
                ran_batch_keeps_store(t, entries, next);
            } else {
                assert(steps::write_actions(e, entries, step) =~= Seq::empty());
            }
        },
        WriteStepView::TryFreeze(i, n) => {
            if steps::is_full(e, n) {
                known_memtable_keeps_store(s);
                known_is(s);
                steps::replacement_is_free(e);
            }
            ran_batch_keeps_store(t, entries, next);
        },
        WriteStepView::Publish(i, m) => {
            publish_keeps_store(s, m);
            ran_batch_keeps_store(t, entries, next);
        },
        WriteStepView::Done => {},
    }
}

/// **A batch keeps the store**, whatever its length: when all its steps are taken and the actions
/// that they hand out are performed, the logs hold what the memtables hold.
pub proof fn batch_keeps_store(s: StoreView, entries: Seq<(Seq<u8>, Seq<u8>)>)
    requires
        in_use(s),
        forall|i: int| 0 <= i < entries.len() ==> (#[trigger] entries[i]).0.len() > 0,
        s.engine.next_sst_id + entries.len() <= usize::MAX,
    ensures
        in_use(wrote_batch(s, entries)),
        wrote_batch(s, entries).engine == laws::write_all(s.engine, entries),
        wrote_batch(s, entries).engine.contents() == laws::apply_all(
            s.engine.contents(),
            entries,
        ),
{
    ran_batch_keeps_store(s, entries, WriteStepView::Begin);
    laws::batch_writes_in_order(s.engine, entries);
}

/// **A write keeps the store**: afterwards its key reads as it was written, and no other read
/// changes.
pub proof fn write_keeps_store(s: StoreView, k: Seq<u8>, v: Seq<u8>)
    requires
        in_use(s),
        k.len() > 0,
        s.engine.next_sst_id < usize::MAX,
    ensures
        in_use(wrote(s, k, v)),
        wrote(s, k, v).engine == laws::write_all(s.engine, seq![(k, v)]),
        wrote(s, k, v).engine.state.lookup(k) == if v.len() > 0 {
            Some(v)
        } else {
            None
        },
        forall|j: Seq<u8>|
            j != k ==> #[trigger] wrote(s, k, v).engine.state.lookup(j)
                == s.engine.state.lookup(j),
{
    let one = seq![(k, v)];
    batch_keeps_store(s, one);
    if v.len() > 0 {
        laws::get_after_put(s.engine, k, v);
    } else {
        assert(v =~= Seq::empty());
        laws::get_after_delete(s.engine, k);
    }
}

/// What a flush leaves.
proof fn flushed_is(s: StoreView)
    requires
        kept(s),
        s.engine.state.imm_memtables.len() > 0,
    ensures
        ({
            let table = steps::table_of(s.engine.state.imm_memtables.last());
            &&& flushed(s).engine == steps::installed(s.engine, table)
            &&& flushed(s).disk == DiskView {
                manifest: recovery::replayed(s.disk.manifest, ManifestRecord::Flush(table.id)),
                tables: s.disk.tables.insert(table.id, table),
                logs: if s.engine.options.enable_wal {
                    s.disk.logs.remove(table.id)
                } else {
                    s.disk.logs
                },
                ..s.disk
            }
        }),
{
    let n = s.engine.state.imm_memtables.len() - 1;
    let table = steps::table_of(s.engine.state.imm_memtables.last());
    let record = ActionView::AddRecord(ManifestRecord::Flush(table.id));
    let t = stepped(s, s.engine, steps::flush_actions(table));
    assert(s.disk.manifest.pending.contains(s.engine.state.imm_memtables[n].id));
    performed_two(s.disk, ActionView::WriteSst(table), ActionView::SyncDir);
    if s.engine.options.enable_wal {
        performed_three(t.disk, record, ActionView::RemoveWal(table.id), ActionView::SyncDir);
    } else {
        performed_two(t.disk, record, ActionView::SyncDir);
    }
}

/// **A flush keeps the store**: the memtable is pending when the flush is recorded, and no read
/// changes.
pub proof fn flush_keeps_store(s: StoreView)
    requires
        kept(s),
        s.engine.state.imm_memtables.len() > 0,
    ensures
        kept(flushed(s)),
        in_use(s) ==> in_use(flushed(s)),
        s.disk.manifest.pending.contains(s.engine.state.imm_memtables.last().id),
        flushed(s).engine.contents() == s.engine.contents(),
        flushed(s).engine.options == s.engine.options,
        flushed(s).engine.next_sst_id == s.engine.next_sst_id,
        flushed(s).engine.state.memtable == s.engine.state.memtable,
{
    let e = s.engine;
    let n = e.state.imm_memtables.len() - 1;
    let m = e.state.imm_memtables[n];
    let table = steps::table_of(m);
    let t = flushed(s);
    flushed_is(s);
    assert(m.entries != Entries::empty());
    laws::flush_keeps_sources(e);
    laws::nothing_idle_through_flush(e, table);
    recovery_laws::manifest_through_flush(s.disk.manifest, e);
    steps::new_table_is_alone(e, table);
    if e.options.enable_wal {
        let before = recovery_laws::memtables(e);
        let mems = recovery_laws::memtables(t.engine);
        assert forall|j: int| 0 <= j < mems.len() implies #[trigger] mems[j] == before[j] by {}
        assert(before[n + 1] == m);
        ids_below_next(e);
        assert forall|id: usize, j: int|
            #![trigger t.disk.manifest.pending.contains(id), mems[j]]
            t.disk.manifest.pending.contains(id) && 0 <= j < mems.len() && mems[j].id
                == id implies mem_table::replay(t.disk.logs[id]) == mems[j].entries by {
            assert(s.disk.manifest.pending.contains(id));
            assert(before[j].id == id);
        }
        assert forall|id: usize|
            t.disk.manifest.pending.contains(id) && !recovery_laws::has_id(
                mems,
                id,
            ) implies mem_table::replay(#[trigger] t.disk.logs[id]) == Entries::empty() by {
            if recovery_laws::has_id(before, id) {
                let j = choose|j: int| 0 <= j < before.len() && (#[trigger] before[j]).id == id;
                if j <= n {
                    assert(mems[j].id == id);
                }
            }
            assert(t.disk.logs[id] == s.disk.logs[id]);
        }
    }
}

/// **A compaction keeps the store.**
pub proof fn compaction_keeps_store(
    s: StoreView,
    engine: EngineView,
    l0_sstables: Seq<usize>,
    levels: Seq<(usize, Seq<usize>)>,
    output: Seq<usize>,
)
    requires
        in_use(s),
        recovery_laws::is_compaction(s.engine, engine, l0_sstables, levels, output),
        engine.wf(),
        own_ids(engine),
    ensures
        in_use(compacted(s, engine, l0_sstables, levels, output)),
{
    let t = compacted(s, engine, l0_sstables, levels, output);
    recovery_laws::manifest_through_compaction(
        s.disk.manifest,
        s.engine,
        engine,
        l0_sstables,
        levels,
        output,
    );
    assert(recovery_laws::memtables(engine) == recovery_laws::memtables(s.engine));
}

/// Increasing ids of a finite set.
proof fn ascending_exists(set: Set<usize>) -> (ids: Seq<usize>)
    requires
        set.finite(),
    ensures
        recovery::ascending(ids, set),
    decreases set.len(),
{
    if set.len() == 0 {
        assert(set =~= Set::empty());
        Seq::empty()
    } else {
        let id = set.choose();
        let rest = ascending_exists(set.remove(id));
        assert(!rest.contains(id));
        let p = place_of(rest, id);
        let ids = rest.insert(p, id);
        assert forall|i: int| 0 <= i < ids.len() implies #[trigger] ids[i] == if i < p {
            rest[i]
        } else if i == p {
            id
        } else {
            rest[i - 1]
        } by {}
        assert forall|x: usize| ids.contains(x) <==> set.contains(x) by {
            if ids.contains(x) {
                let i = choose|i: int| 0 <= i < ids.len() && ids[i] == x;
                if i < p {
                    assert(rest.contains(rest[i]));
                } else if i > p {
                    assert(rest.contains(rest[i - 1]));
                }
            }
            if set.contains(x) {
                if x == id {
                    assert(ids[p] == x);
                } else {
                    assert(rest.contains(x));
                    let i = choose|i: int| 0 <= i < rest.len() && rest[i] == x;
                    if i < p {
                        assert(ids[i] == x);
                    } else {
                        assert(ids[i + 1] == x);
                    }
                }
            }
        }
        ids
    }
}

proof fn place_of(ids: Seq<usize>, id: usize) -> (p: int)
    requires
        forall|i: int, j: int| 0 <= i < j < ids.len() ==> ids[i] < ids[j],
        !ids.contains(id),
    ensures
        0 <= p <= ids.len(),
        forall|i: int| 0 <= i < p ==> ids[i] < id,
        forall|i: int| p <= i < ids.len() ==> id < ids[i],
    decreases ids.len(),
{
    if ids.len() > 0 && id < ids.last() {
        let rest = ids.drop_last();
        assert(!rest.contains(id)) by {
            if rest.contains(id) {
                let i = choose|i: int| 0 <= i < rest.len() && rest[i] == id;
                assert(ids[i] == id);
            }
        }
        let p = place_of(rest, id);
        assert forall|i: int| 0 <= i < p implies ids[i] < id by {
            assert(rest[i] == ids[i]);
        }
        assert forall|i: int| p <= i < ids.len() implies id < ids[i] by {
            if i < rest.len() {
                assert(rest[i] == ids[i]);
            }
        }
        p
    } else {
        if ids.len() > 0 {
            assert(ids[ids.len() - 1] == ids.last());
        }
        ids.len() as int
    }
}

/// The logs of finitely many pending memtables can be put in order.
proof fn logs_are_found(d: DiskView)
    requires
        d.manifest.pending.finite(),
    ensures
        are_logs_on(d, logs_on(d)),
{
    let ids = ascending_exists(d.manifest.pending);
    let found = ids.map_values(|id: usize| (id, d.logs[id]));
    assert(found.map_values(|l: (usize, Run<Seq<u8>>)| l.0) =~= ids);
    assert(are_logs_on(d, found));
}

/// What is read from the disk when a store is opened is what the manifest names.
proof fn disk_is_found(s: StoreView)
    requires
        kept(s),
    ensures
        recovery::all_found(s.disk.manifest, tables_on(s.disk), logs_on(s.disk)),
        recovery_laws::same_tables(s.disk.manifest, s.engine, tables_on(s.disk)),
        s.engine.options.enable_wal ==> recovery_laws::faithful(
            recovery_laws::memtables(s.engine),
            logs_on(s.disk),
        ),
{
    let d = s.disk;
    let r = d.manifest;
    let (tables, logs) = (tables_on(d), logs_on(d));
    logs_are_found(d);
    assert forall|i: int| 0 <= i < tables.len() implies (#[trigger] tables[i]).wf()
        && tables[i].id == r.table_ids()[i] && tables[i] == s.engine.state.sstables[
    r.table_ids()[i]] by {
        recovery_laws::listed_is_engine_table(r, s.engine, i);
        assert(s.engine.state.sstables.contains_key(r.table_ids()[i]));
    }
    if s.engine.options.enable_wal {
        let mems = recovery_laws::memtables(s.engine);
        let named = logs.map_values(|l: (usize, Run<Seq<u8>>)| l.0);
        assert forall|i: int| 0 <= i < logs.len() implies r.pending.contains(
            (#[trigger] logs[i]).0,
        ) && logs[i].1 == d.logs[logs[i].0] by {
            assert(named[i] == logs[i].0);
            assert(named.contains(logs[i].0));
        }
        assert forall|i: int, j: int|
            0 <= i < logs.len() && 0 <= j < mems.len() && (#[trigger] logs[i]).0 == (
            #[trigger] mems[j]).id implies mem_table::replay(logs[i].1) == mems[j].entries by {
            assert(r.pending.contains(logs[i].0));
        }
        assert forall|i: int|
            0 <= i < logs.len() && !recovery_laws::has_id(
                mems,
                (#[trigger] logs[i]).0,
            ) implies mem_table::replay(logs[i].1) == Entries::empty() by {
            assert(r.pending.contains(logs[i].0));
        }
    }
}

/// What opening leaves on disk.
proof fn opened_is(s: StoreView)
    requires
        s.disk.has_manifest,
    ensures
        ({
            let r = s.disk.manifest;
            let id = (r.next_sst_id + 1) as usize;
            opened(s).disk == DiskView {
                manifest: recovery::replayed(r, recovery_laws::opening_record(r)),
                logs: if r.options.enable_wal {
                    s.disk.logs.insert(id, Seq::empty())
                } else {
                    s.disk.logs
                },
                ..s.disk
            }
        }),
{
    let r = s.disk.manifest;
    let id = (r.next_sst_id + 1) as usize;
    let record = ActionView::AddRecord(recovery_laws::opening_record(r));
    if r.options.enable_wal {
        assert(recovery::recovery_actions(r) =~= seq![
            ActionView::CreateWal(id),
            record,
            ActionView::SyncDir,
        ]);
        performed_three(s.disk, ActionView::CreateWal(id), record, ActionView::SyncDir);
    } else {
        performed_two(s.disk, record, ActionView::SyncDir);
    }
}

/// The tables of a store that was opened again are on disk.
proof fn tables_of_opened(s: StoreView)
    requires
        kept(s),
        s.disk.manifest.next_sst_id + 2 <= usize::MAX,
    ensures
        tables_kept(opened(s)),
{
    let t = opened(s);
    let tables = tables_on(s.disk);
    disk_is_found(s);
    opened_is(s);
    assert forall|i: int| 0 <= i < tables.len() implies (#[trigger] tables[i]).wf() by {}
    recovery::opened_has_all(tables);
    assert forall|id: usize| #[trigger] t.engine.state.sstables.contains_key(
        id,
    ) implies t.engine.state.sstables[id].id == id && t.disk.tables.contains_key(id)
        && t.disk.tables[id] == t.engine.state.sstables[id] by {
        let found = recovery::opened(tables)[id];
        let j = choose|j: int| 0 <= j < tables.len() && tables[j] == found;
        recovery_laws::listed_is_engine_table(s.disk.manifest, s.engine, j);
        assert(s.disk.manifest.table_ids()[j] == id);
    }
}

/// The logs keep the memtables that came back from them.
proof fn logs_of_opened(s: StoreView)
    requires
        kept(s),
        s.engine.options.enable_wal,
        s.disk.manifest.next_sst_id + 2 <= usize::MAX,
        opened(s).engine.wf(),
    ensures
        logs_kept(opened(s)),
{
    let d = s.disk;
    let r = d.manifest;
    let logs = logs_on(d);
    let t = opened(s);
    let f = t.engine;
    let mems = recovery_laws::memtables(f);
    let back = recovery::logged_memtables(logs);
    assert(recovery::ascending(logs.map_values(|l: (usize, Run<Seq<u8>>)| l.0), r.pending)
        && forall|i: int| 0 <= i < logs.len() ==> (#[trigger] logs[i]).1 == d.logs[logs[i].0])
        by {
        logs_are_found(d);
    }
    opened_is(s);
    recovery_laws::logs_come_back(logs, r.pending);
    ids_below_next(f);
    let new_id = f.state.memtable.id;
    assert(mems.len() == back.len() + 1);
    assert(mems[0] == f.state.memtable);
    assert forall|j: int| 0 < j < mems.len() implies #[trigger] mems[j] == back[j - 1] && mems[j].id
        < new_id by {
        assert(mems[0].id > mems[j].id);
    }
    assert(!r.pending.contains(new_id));
    assert forall|id: usize, j: int|
        #![trigger t.disk.manifest.pending.contains(id), mems[j]]
        t.disk.manifest.pending.contains(id) && 0 <= j < mems.len() && mems[j].id
            == id implies mem_table::replay(t.disk.logs[id]) == mems[j].entries by {
        if j > 0 {
            let i = choose|i: int|
                0 <= i < logs.len() && (#[trigger] logs[i]).0 == back[j - 1].id
                    && mem_table::replay(logs[i].1) == back[j - 1].entries;
            assert(logs[i].1 == d.logs[logs[i].0]);
        }
    }
    assert forall|id: usize|
        t.disk.manifest.pending.contains(id) && !recovery_laws::has_id(
            mems,
            id,
        ) implies mem_table::replay(#[trigger] t.disk.logs[id]) == Entries::empty() by {
        assert(id != new_id);
        assert(r.pending.contains(id));
        if mem_table::replay(d.logs[id]) != Entries::empty() {
            let i = choose|i: int| 0 <= i < logs.len() && (#[trigger] logs[i]).0 == id;
            assert(logs[i].1 == d.logs[id]);
            let j = choose|j: int| 0 <= j < back.len() && (#[trigger] back[j]).id == logs[i].0;
            assert(mems[j + 1].id == id);
        }
    }
}

/// **Opening a store with logs again keeps it**, whatever was in memory: no read changes, the
/// tables are laid out as they were, and it can be used as before.
pub proof fn open_keeps_store(s: StoreView)
    requires
        in_use(s),
        s.engine.options.enable_wal,
        s.disk.manifest.next_sst_id + 2 <= usize::MAX,
    ensures
        in_use(opened(s)),
        opened(s).engine.contents() == s.engine.contents(),
        opened(s).engine.state.l0_sstables == s.engine.state.l0_sstables,
        opened(s).engine.state.levels == s.engine.state.levels,
{
    let r = s.disk.manifest;
    let (tables, logs) = (tables_on(s.disk), logs_on(s.disk));
    disk_is_found(s);
    opened_is(s);
    recovery_laws::recovery_restores_contents(r, s.engine, tables, logs);
    recovery_laws::manifest_through_open(r, s.engine, tables, logs);
    tables_of_opened(s);
    logs_of_opened(s);
}

/// **Opening can be interrupted** after any of its actions: before the new memtable is recorded the
/// store is kept as it was, and from there on as the started engine has it.
pub proof fn open_can_be_interrupted(s: StoreView, n: int)
    requires
        in_use(s),
        s.engine.options.enable_wal,
        s.disk.manifest.next_sst_id + 2 <= usize::MAX,
        0 <= n <= recovery::recovery_actions(s.disk.manifest).len(),
    ensures
        ({
            let done = recovery::recovery_actions(s.disk.manifest).take(n);
            if n <= 1 {
                in_use(stepped(s, s.engine, done))
            } else {
                in_use(stepped(s, opened(s).engine, done))
            }
        }),
{
    let r = s.disk.manifest;
    let id = (r.next_sst_id + 1) as usize;
    let create = ActionView::CreateWal(id);
    let record = ActionView::AddRecord(recovery_laws::opening_record(r));
    let actions = recovery::recovery_actions(r);
    let done = actions.take(n);
    open_keeps_store(s);
    assert(actions =~= seq![create, record, ActionView::SyncDir]);
    performed_three(s.disk, create, record, ActionView::SyncDir);
    if n == 0 {
        assert(done =~= Seq::empty());
        performed_none(s.disk);
    } else if n == 1 {
        let mems = recovery_laws::memtables(s.engine);
        assert(!recovery_laws::has_id(mems, id)) by {
            assert forall|j: int| 0 <= j < mems.len() implies (#[trigger] mems[j]).id != id by {
                if j > 0 {
                    assert(mems[j] == s.engine.state.imm_memtables[j - 1]);
                }
                assert(r.pending.contains(mems[j].id));
            }
        }
        assert(done =~= seq![create]);
        performed_one(s.disk, create);
        spare_log(s, id);
    } else if n == 2 {
        assert(done =~= seq![create, record]);
        performed_two(s.disk, create, record);
    } else {
        assert(done =~= actions);
    }
}

/// Draining keeps the store.
proof fn drain_keeps_store(s: StoreView)
    requires
        kept(s),
    ensures
        kept(drained(s)),
        drained(s).engine == laws::close_rest(s.engine, CloseStepView::Drain),
        drained(s).engine.state.imm_memtables.len() == 0,
        drained(s).engine.contents() == s.engine.contents(),
        drained(s).engine.options == s.engine.options,
        drained(s).engine.next_sst_id == s.engine.next_sst_id,
        drained(s).engine.state.memtable == s.engine.state.memtable,
    decreases s.engine.state.imm_memtables.len(),
{
    if s.engine.state.imm_memtables.len() > 0 {
        flush_keeps_store(s);
        flushed_is(s);
        drain_keeps_store(flushed(s));
    }
    reveal_with_fuel(laws::close_rest, 3);
}

/// Closing drains as flushes do.
proof fn ran_drain_is(s: StoreView)
    requires
        kept(s),
    ensures
        ran_close(s, CloseStepView::Drain) == drained(s),
    decreases s.engine.state.imm_memtables.len(),
{
    let e = s.engine;
    reveal_with_fuel(ran_close, 3);
    if e.state.imm_memtables.len() == 0 {
        performed_one(s.disk, ActionView::SyncDir);
        assert(ran_close(s, CloseStepView::Drain) =~= s);
    } else {
        let table = steps::table_of(e.state.imm_memtables.last());
        let t = stepped(s, e, steps::close_actions(e, CloseStepView::Drain));
        let u = stepped(
            t,
            steps::installed(e, table),
            steps::close_actions(e, CloseStepView::Install(table)),
        );
        assert(u == flushed(s));
        flush_keeps_store(s);
        flushed_is(s);
        ran_drain_is(u);
    }
}

/// **What closing leaves**: with logs everything stays where it is; without, memory is emptied by
/// flushes.
proof fn closed_is(s: StoreView)
    requires
        in_use(s),
        s.engine.next_sst_id < usize::MAX,
    ensures
        ({
            let e = s.engine;
            closed(s) == if e.options.enable_wal {
                s
            } else if e.state.memtable.entries == Entries::empty() {
                drained(s)
            } else {
                drained(closing_freeze(s))
            }
        }),
        !s.engine.options.enable_wal && s.engine.state.memtable.entries != Entries::empty()
            ==> kept(closing_freeze(s)) && closing_freeze(s).engine.contents()
            == s.engine.contents(),
{
    let e = s.engine;
    let sync = ActionView::SyncDir;
    reveal_with_fuel(ran_close, 3);
    current_has_log(s);
    performed_one(s.disk, sync);
    performed_none(s.disk);
    sync_changes_nothing(s.disk, e.state.memtable);
    if e.options.enable_wal {
        let actions = steps::close_actions(e, CloseStepView::Save);
        assert(actions =~= seq![ActionView::SyncWal(e.state.memtable.id), sync]);
        performed_two(s.disk, ActionView::SyncWal(e.state.memtable.id), sync);
        assert(closed(s) =~= s);
    } else if e.state.memtable.entries == Entries::empty() {
        ran_drain_is(s);
        assert(stepped(s, e, Seq::empty()) =~= s);
    } else {
        let m = mem_table::fresh(e.next_sst_id, false);
        let t = closing_freeze(s);
        let f = t.engine;
        steps::replacement_is_free(e);
        steps::frozen_keeps_wf(steps::id_taken(e), m);
        laws::nothing_idle_through_freeze(steps::id_taken(e), m);
        laws::freeze_keeps_contents(steps::id_taken(e), m);
        assert forall|i: int| 0 <= i < f.state.imm_memtables.len() implies
            #[trigger] f.state.imm_memtables[i] == if i == 0 {
            e.state.memtable
        } else {
            e.state.imm_memtables[i - 1]
        } by {}
        assert(kept(t));
        ran_drain_is(t);
    }
}

/// Closing without logs froze the memtable. The one that takes over is not recorded.
pub open spec fn closing_freeze(s: StoreView) -> StoreView {
    StoreView {
        engine: steps::frozen(
            steps::id_taken(s.engine),
            mem_table::fresh(s.engine.next_sst_id, false),
        ),
        ..s
    }
}

/// **A store that is closed and opened again is as it was**, with logs and without: no read
/// changes, and it can be used, closed and opened again.
pub proof fn restart_keeps_store(s: StoreView)
    requires
        in_use(s),
        s.engine.next_sst_id + 3 <= usize::MAX,
    ensures
        in_use(opened(closed(s))),
        opened(closed(s)).engine.contents() == s.engine.contents(),
        opened(closed(s)).engine.state.l0_sstables == closed(s).engine.state.l0_sstables,
        opened(closed(s)).engine.state.levels == closed(s).engine.state.levels,
        closed(s).engine == laws::close_rest(s.engine, CloseStepView::Begin),
{
    let e = s.engine;
    let c = closed(s);
    reveal_with_fuel(laws::close_rest, 3);
    closed_is(s);
    if e.options.enable_wal {
        open_keeps_store(s);
    } else {
        if e.state.memtable.entries == Entries::empty() {
            drain_keeps_store(s);
        } else {
            drain_keeps_store(closing_freeze(s));
        }
        let d = c.disk;
        disk_is_found(c);
        opened_is(c);
        tables_of_opened(c);
        recovery_laws::recovery_restores_tables(
            d.manifest,
            c.engine,
            tables_on(d),
            logs_on(d),
        );
        recovery_laws::manifest_through_open_without_logs(
            d.manifest,
            c.engine,
            tables_on(d),
            logs_on(d),
        );
    }
}

/// **A forced flush keeps the store**, and no read changes.
pub proof fn force_flush_keeps_store(s: StoreView)
    requires
        in_use(s),
        s.engine.next_sst_id < usize::MAX,
    ensures
        in_use(force_flushed(s)),
        force_flushed(s).engine == laws::force_flush_all(s.engine),
        force_flushed(s).engine.contents() == s.engine.contents(),
        force_flushed(s).engine.state.memtable.entries == Entries::empty(),
{
    let e = s.engine;
    laws::force_flush_steps(e);
    let t = if e.state.memtable.entries == Entries::empty() {
        s
    } else {
        freeze_keeps_store(s);
        froze(s)
    };
    performed_none(s.disk);
    performed_none(t.disk);
    if t.engine.state.imm_memtables.len() > 0 {
        flush_keeps_store(t);
        performed_none(flushed(t).disk);
    }
}

/// **A new store can be used**, and holds nothing: from a directory without files on, the actions
/// of making a store can be performed in their order, and leave a manifest that knows the memtable.
pub proof fn new_store_in_use(options: LsmStorageOptions)
    ensures
        in_use(new_store(options)),
        new_store(options).engine.contents() == Entries::empty(),
{
    let s = new_store(options);
    let d = empty_disk(options);
    let record = ActionView::AddRecord(ManifestRecord::NewMemtable(0));
    if options.enable_wal {
        let d1 = performed(d, ActionView::CreateWal(0));
        assert(recovery::creation_actions(options).drop_first() =~= seq![
            ActionView::CreateManifest,
            record,
            ActionView::SyncDir,
        ]);
        performed_three(d1, ActionView::CreateManifest, record, ActionView::SyncDir);
    } else {
        performed_three(d, ActionView::CreateManifest, record, ActionView::SyncDir);
    }
    recovery_laws::manifest_of_new_store(options);
    recovery::new_engine_is_sound(options);
    if options.enable_wal {
        let mems = recovery_laws::memtables(s.engine);
        assert(mems =~= seq![s.engine.state.memtable]);
        assert(mems[0].id == 0);
    }
    recovery::new_engine_is_empty(options);
}

/// **A store keeps what was written**, whatever is done with it from its creation on: after any
/// writes, deletions, freezes, flushes, compactions and restarts, in any order, every key reads as
/// it was last written.
pub proof fn store_keeps_what_was_written(options: LsmStorageOptions, ops: Seq<Operation>)
    requires
        all_allowed(new_store(options), ops),
    ensures
        in_use(after(new_store(options), ops)),
        forall|k: Seq<u8>| #[trigger]
            after(new_store(options), ops).engine.state.lookup(k) == model::live_value(
                written_by(ops),
                k,
            ),
    decreases ops.len(),
{
    if ops.len() == 0 {
        new_store_in_use(options);
    } else {
        let s = after(new_store(options), ops.drop_last());
        store_keeps_what_was_written(options, ops.drop_last());
        match ops.last() {
            Operation::Write(k, v) => write_keeps_store(s, k, v),
            Operation::Batch(entries) => batch_keeps_store(s, entries),
            Operation::Freeze => freeze_keeps_store(s),
            Operation::Flush => flush_keeps_store(s),
            Operation::ForceFlush => force_flush_keeps_store(s),
            Operation::Compact { engine, l0_sstables, levels, output } => compaction_keeps_store(
                s,
                engine,
                l0_sstables,
                levels,
                output,
            ),
            Operation::Restart => restart_keeps_store(s),
        }
        let t = after(new_store(options), ops);
        assert forall|k: Seq<u8>| #[trigger] t.engine.state.lookup(k) == model::live_value(
            written_by(ops),
            k,
        ) by {
            assert(s.engine.state.lookup(k) == model::live_value(written_by(ops.drop_last()), k));
            if let Operation::Batch(entries) = ops.last() {
                laws::same_reads_after(
                    s.engine.contents(),
                    written_by(ops.drop_last()),
                    entries,
                    k,
                );
            }
        }
    }
}

} // verus!
