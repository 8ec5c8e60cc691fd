//! The model of what the engine does step by step.

use vstd::prelude::*;
use crate::lsm_storage::actions::{ActionView, ManifestRecord};
use crate::lsm_storage::model;
use crate::lsm_storage::model::StateView;
use crate::lsm_storage::LsmStorageOptions;
use crate::mem_table;
use crate::mem_table::MemView;
use crate::run;
use crate::run::Entries;
use crate::table;
use crate::table::TableView;

verus! {

/// What the engine is: its layout, the next free id, the options, and whether flushed tables make
/// tiers.
#[verifier::ext_equal]
pub struct EngineView {
    pub state: StateView,
    pub next_sst_id: usize,
    pub options: LsmStorageOptions,
    pub tiered: bool,
}

impl EngineView {
    /// The id is in use by a memtable.
    pub open spec fn memtable_has(self, id: usize) -> bool {
        ||| self.state.memtable.id == id
        ||| exists|i: int|
            0 <= i < self.state.imm_memtables.len() && (#[trigger] self.state.imm_memtables[i]).id
                == id
    }

    /// Every memtable and table has an id of its own, later memtables have larger ones, and the
    /// next one is free.
    pub open spec fn ids_wf(self) -> bool {
        let imm = self.state.imm_memtables;
        &&& self.state.memtable.id < self.next_sst_id
        &&& forall|id: usize| #[trigger]
            self.state.sstables.contains_key(id) ==> id < self.next_sst_id
        &&& forall|i: int|
            0 <= i < imm.len() ==> (#[trigger] imm[i]).id < self.state.memtable.id
        &&& forall|i: int, j: int|
            0 <= i < j < imm.len() ==> (#[trigger] imm[i]).id > (#[trigger] imm[j]).id
        &&& forall|id: usize| #[trigger]
            self.state.sstables.contains_key(id) ==> !self.memtable_has(id)
    }

    /// The engine can be read and written. With tiers, L0 stays empty.
    pub open spec fn wf(self) -> bool {
        &&& self.state.wf()
        &&& self.ids_wf()
        &&& self.tiered ==> self.state.l0_sstables.len() == 0
    }

    pub open spec fn contents(self) -> Entries {
        self.state.contents()
    }
}

/// An entry was put into the current memtable.
pub open spec fn put(e: EngineView, k: Seq<u8>, v: Seq<u8>) -> EngineView {
    EngineView {
        state: StateView { memtable: mem_table::put_entry(e.state.memtable, k, v), ..e.state },
        ..e
    }
}

/// The next id was given away.
pub open spec fn id_taken(e: EngineView) -> EngineView {
    EngineView { next_sst_id: (e.next_sst_id + 1) as usize, ..e }
}

/// The memtable that takes over in a freeze.
pub open spec fn replacement(e: EngineView) -> MemView {
    mem_table::fresh(e.next_sst_id, e.options.enable_wal)
}

/// Memtable `m` took over, and the former one is the latest immutable one.
pub open spec fn frozen(e: EngineView, m: MemView) -> EngineView {
    EngineView {
        state: StateView {
            memtable: m,
            imm_memtables: seq![e.state.memtable] + e.state.imm_memtables,
            ..e.state
        },
        ..e
    }
}

/// Before a new memtable takes over, its log must exist and the manifest must know of it.
pub open spec fn freeze_actions(e: EngineView) -> Seq<ActionView> {
    let id = e.next_sst_id;
    let record = ActionView::AddRecord(ManifestRecord::NewMemtable(id));
    if e.options.enable_wal {
        seq![ActionView::CreateWal(id), ActionView::SyncDir, record]
    } else {
        seq![record]
    }
}

/// The log of a memtable has to be synced, if there is one.
pub open spec fn sync_actions(m: MemView) -> Seq<ActionView> {
    match mem_table::log_of(m) {
        Some(id) => seq![ActionView::SyncWal(id)],
        None => Seq::empty(),
    }
}

/// The table into which a memtable is flushed.
pub open spec fn table_of(m: MemView) -> TableView {
    table::table_on(m.id, run::listing(m.entries))
}

/// Table `t` took the place of the earliest immutable memtable: as the latest L0 table, or as a
/// new tier on top.
pub open spec fn installed(e: EngineView, t: TableView) -> EngineView {
    let state = StateView {
        imm_memtables: e.state.imm_memtables.drop_last(),
        sstables: e.state.sstables.insert(t.id, t),
        ..e.state
    };
    EngineView {
        state: if e.tiered {
            StateView { levels: seq![(t.id, seq![t.id])] + e.state.levels, ..state }
        } else {
            StateView { l0_sstables: seq![t.id] + e.state.l0_sstables, ..state }
        },
        ..e
    }
}

/// The table must be on disk before it takes the memtable's place.
pub open spec fn flush_actions(t: TableView) -> Seq<ActionView> {
    seq![ActionView::WriteSst(t), ActionView::SyncDir]
}

/// The flush must be recorded before the memtable's log is removed.
pub open spec fn install_actions(e: EngineView, t: TableView) -> Seq<ActionView> {
    let record = ActionView::AddRecord(ManifestRecord::Flush(t.id));
    if e.options.enable_wal {
        seq![record, ActionView::RemoveWal(t.id), ActionView::SyncDir]
    } else {
        seq![record, ActionView::SyncDir]
    }
}

/// Where a batch stands.
#[verifier::ext_equal]
pub enum WriteStepView {
    /// Nothing was looked at yet.
    Begin,
    /// The record with an index is next.
    Put(int),
    /// The record with an index was put, which made the memtable as large as stated.
    TryFreeze(int, usize),
    /// The memtable was too large after the record with an index, and another one takes over.
    Publish(int, MemView),
    /// All records were put.
    Done,
}

/// The memtable has to be frozen: it was too large after a write, and it still is.
pub open spec fn is_full(e: EngineView, estimated_size: usize) -> bool {
    estimated_size >= e.options.target_sst_size && e.state.memtable.size
        >= e.options.target_sst_size
}

/// One step of a batch that is valid. Records are applied one at a time, and the memtable can be
/// frozen between them.
pub open spec fn write_step(
    e: EngineView,
    entries: Seq<(Seq<u8>, Seq<u8>)>,
    step: WriteStepView,
) -> (EngineView, WriteStepView) {
    match step {
        WriteStepView::Begin => (e, WriteStepView::Put(0)),
        WriteStepView::Put(i) => if i < entries.len() {
            let after = put(e, entries[i].0, entries[i].1);
            (after, WriteStepView::TryFreeze(i, after.state.memtable.size))
        } else {
            (e, WriteStepView::Done)
        },
        WriteStepView::TryFreeze(i, estimated_size) => if is_full(e, estimated_size) {
            (id_taken(e), WriteStepView::Publish(i, replacement(e)))
        } else {
            (e, WriteStepView::Put(i + 1))
        },
        WriteStepView::Publish(i, m) => (frozen(e, m), WriteStepView::Put(i + 1)),
        WriteStepView::Done => (e, WriteStepView::Done),
    }
}

/// What the host does after one step of a batch.
pub open spec fn write_actions(
    e: EngineView,
    entries: Seq<(Seq<u8>, Seq<u8>)>,
    step: WriteStepView,
) -> Seq<ActionView> {
    match step {
        WriteStepView::Begin => Seq::empty(),
        WriteStepView::Put(i) => match mem_table::log_of(e.state.memtable) {
            Some(id) => if i < entries.len() {
                seq![ActionView::AppendWal(id, entries[i].0, entries[i].1)]
            } else {
                Seq::empty()
            },
            None => Seq::empty(),
        },
        WriteStepView::TryFreeze(_, estimated_size) => if is_full(e, estimated_size) {
            freeze_actions(e)
        } else {
            Seq::empty()
        },
        WriteStepView::Publish(_, _) => sync_actions(e.state.memtable),
        WriteStepView::Done => Seq::empty(),
    }
}

/// No immutable memtable is left.
pub open spec fn is_drained(e: EngineView) -> bool {
    e.state.imm_memtables.len() == 0
}

/// Where a forced flush stands.
#[verifier::ext_equal]
pub enum ForceFlushStepView {
    Begin,
    Publish(MemView),
    Flush,
    Install(TableView),
    Done,
}

/// One step of a forced flush: freeze the memtable if it holds anything, then flush the earliest
/// immutable one if there is one.
pub open spec fn force_flush_step(e: EngineView, step: ForceFlushStepView) -> (
    EngineView,
    ForceFlushStepView,
) {
    match step {
        ForceFlushStepView::Begin => if e.state.memtable.entries == Entries::empty() {
            (e, ForceFlushStepView::Flush)
        } else {
            (id_taken(e), ForceFlushStepView::Publish(replacement(e)))
        },
        ForceFlushStepView::Publish(m) => (frozen(e, m), ForceFlushStepView::Flush),
        ForceFlushStepView::Flush => if is_drained(e) {
            (e, ForceFlushStepView::Done)
        } else {
            (e, ForceFlushStepView::Install(table_of(e.state.imm_memtables.last())))
        },
        ForceFlushStepView::Install(t) => (installed(e, t), ForceFlushStepView::Done),
        ForceFlushStepView::Done => (e, ForceFlushStepView::Done),
    }
}

/// What the host does after one step of a forced flush.
pub open spec fn force_flush_actions(e: EngineView, step: ForceFlushStepView) -> Seq<ActionView> {
    match step {
        ForceFlushStepView::Begin => if e.state.memtable.entries == Entries::empty() {
            Seq::empty()
        } else {
            freeze_actions(e)
        },
        ForceFlushStepView::Publish(_) => sync_actions(e.state.memtable),
        ForceFlushStepView::Flush => if is_drained(e) {
            Seq::empty()
        } else {
            flush_actions(table_of(e.state.imm_memtables.last()))
        },
        ForceFlushStepView::Install(t) => install_actions(e, t),
        ForceFlushStepView::Done => Seq::empty(),
    }
}

/// Where closing the store stands.
#[verifier::ext_equal]
pub enum CloseStepView {
    /// Nothing was done yet.
    Begin,
    /// No worker runs any more.
    Save,
    /// The immutable memtables are being flushed.
    Drain,
    /// A table is on disk.
    Install(TableView),
    Done,
}

/// One step of closing the store. With logs it is enough to sync; without, the memtable is frozen
/// if it holds anything, and all immutable memtables are flushed. The memtable that takes over is
/// not recorded: it stays empty.
pub open spec fn close_step(e: EngineView, step: CloseStepView) -> (EngineView, CloseStepView) {
    match step {
        CloseStepView::Begin => (e, CloseStepView::Save),
        CloseStepView::Save => if e.options.enable_wal {
            (e, CloseStepView::Done)
        } else if e.state.memtable.entries == Entries::empty() {
            (e, CloseStepView::Drain)
        } else {
            (frozen(id_taken(e), mem_table::fresh(e.next_sst_id, false)), CloseStepView::Drain)
        },
        CloseStepView::Drain => if is_drained(e) {
            (e, CloseStepView::Done)
        } else {
            (e, CloseStepView::Install(table_of(e.state.imm_memtables.last())))
        },
        CloseStepView::Install(t) => (installed(e, t), CloseStepView::Drain),
        CloseStepView::Done => (e, CloseStepView::Done),
    }
}

/// What the host does after one step of closing the store.
pub open spec fn close_actions(e: EngineView, step: CloseStepView) -> Seq<ActionView> {
    match step {
        CloseStepView::Begin => seq![ActionView::SyncDir],
        CloseStepView::Save => if e.options.enable_wal {
            sync_actions(e.state.memtable).push(ActionView::SyncDir)
        } else if e.state.memtable.entries == Entries::empty() {
            Seq::empty()
        } else {
            sync_actions(e.state.memtable)
        },
        CloseStepView::Drain => if is_drained(e) {
            seq![ActionView::SyncDir]
        } else {
            flush_actions(table_of(e.state.imm_memtables.last()))
        },
        CloseStepView::Install(t) => install_actions(e, t),
        CloseStepView::Done => Seq::empty(),
    }
}

/// Memtable `m` can take over: it is sound, and it has an id of its own that is the largest.
pub open spec fn can_publish(e: EngineView, m: MemView) -> bool {
    &&& model::memtable_wf(m)
    &&& e.state.memtable.id < m.id < e.next_sst_id
    &&& !e.state.sstables.contains_key(m.id)
}

/// Putting an entry keeps the engine sound.
pub proof fn put_keeps_wf(e: EngineView, k: Seq<u8>, v: Seq<u8>)
    requires
        e.wf(),
        k.len() > 0,
    ensures
        put(e, k, v).wf(),
{
    let f = put(e, k, v);
    assert(f.state.memtable.entries.dom() =~= e.state.memtable.entries.dom().insert(k));
    layout_kept(e, f);
}

/// Soundness of the tables does not depend on the memtables.
proof fn layout_kept(e: EngineView, f: EngineView)
    requires
        e.state.tables_wf(),
        f.state.l0_sstables == e.state.l0_sstables,
        f.state.levels == e.state.levels,
        f.state.sstables == e.state.sstables,
    ensures
        f.state.tables_wf(),
{
    assert forall|i: int| 0 <= i < f.state.l0_sstables.len() implies f.state.has_table(
        #[trigger] f.state.l0_sstables[i],
    ) by {
        assert(e.state.has_table(e.state.l0_sstables[i]));
    }
    assert forall|i: int| 0 <= i < f.state.levels.len() implies f.state.level_wf(
        (#[trigger] f.state.levels[i]).1,
    ) by {
        let ids = e.state.levels[i].1;
        assert(e.state.level_wf(ids));
        assert forall|j: int| 0 <= j < ids.len() implies f.state.has_table(
            #[trigger] ids[j],
        ) by {
            assert(e.state.has_table(ids[j]));
        }
        assert(f.state.tables(ids) =~= e.state.tables(ids));
    }
}

/// The id that a freeze takes is free, and so its replacement can take over.
pub proof fn replacement_is_free(e: EngineView)
    requires
        e.wf(),
        e.next_sst_id < usize::MAX,
    ensures
        id_taken(e).wf(),
        can_publish(id_taken(e), replacement(e)),
{
    layout_kept(e, id_taken(e));
    let f = id_taken(e);
    assert forall|id: usize| #[trigger] f.state.sstables.contains_key(
        id,
    ) implies !f.memtable_has(id) by {
        assert(!e.memtable_has(id));
    }
}

/// A freeze keeps the engine sound.
pub proof fn frozen_keeps_wf(e: EngineView, m: MemView)
    requires
        e.wf(),
        can_publish(e, m),
    ensures
        frozen(e, m).wf(),
{
    let f = frozen(e, m);
    let imm = f.state.imm_memtables;
    layout_kept(e, f);
    assert forall|i: int| 0 <= i < imm.len() implies #[trigger] imm[i] == if i == 0 {
        e.state.memtable
    } else {
        e.state.imm_memtables[i - 1]
    } by {}
    assert forall|i: int| 0 <= i < imm.len() implies (#[trigger] imm[i]).id < m.id by {
        if i > 0 {
            assert(e.state.imm_memtables[i - 1].id == imm[i].id);
        }
    }
    assert forall|i: int, j: int| 0 <= i < j < imm.len() implies (#[trigger] imm[i]).id > (
    #[trigger] imm[j]).id by {
        assert(imm[j] == e.state.imm_memtables[j - 1]);
        if i > 0 {
            assert(imm[i] == e.state.imm_memtables[i - 1]);
        }
    }
    assert forall|id: usize| #[trigger] f.state.sstables.contains_key(
        id,
    ) implies !f.memtable_has(id) by {
        assert(!e.memtable_has(id));
        if f.memtable_has(id) && m.id != id {
            let i = choose|i: int| 0 <= i < imm.len() && (#[trigger] imm[i]).id == id;
            if i > 0 {
                assert(e.state.imm_memtables[i - 1].id == id);
            }
        }
    }
}

/// No table of the layout has the id of a memtable.
pub proof fn new_table_is_alone(e: EngineView, t: TableView)
    requires
        e.wf(),
        e.state.imm_memtables.len() > 0,
        e.state.imm_memtables.last().id == t.id,
    ensures
        !e.state.sstables.contains_key(t.id),
{
    let n = e.state.imm_memtables.len() - 1;
    assert(e.state.imm_memtables[n].id == t.id);
    assert(e.memtable_has(t.id));
}

/// A table that was added leaves the others alone.
pub proof fn tables_kept(e: EngineView, f: EngineView)
    requires
        e.state.tables_wf(),
        exists|t: TableView|
            f.state.sstables == e.state.sstables.insert(t.id, t)
                && !#[trigger] e.state.sstables.contains_key(t.id),
    ensures
        forall|id: usize| #[trigger]
            e.state.has_table(id) ==> f.state.has_table(id) && f.state.sstables[id]
                == e.state.sstables[id],
        forall|i: int|
            0 <= i < e.state.l0_sstables.len() ==> f.state.sstables[
            #[trigger] e.state.l0_sstables[i]] == e.state.sstables[e.state.l0_sstables[i]],
        forall|i: int|
            0 <= i < e.state.levels.len() ==> f.state.tables((#[trigger] e.state.levels[i]).1)
                == e.state.tables(e.state.levels[i].1),
{
    assert forall|i: int| 0 <= i < e.state.l0_sstables.len() implies f.state.sstables[
    #[trigger] e.state.l0_sstables[i]] == e.state.sstables[e.state.l0_sstables[i]] by {
        assert(e.state.has_table(e.state.l0_sstables[i]));
    }
    assert forall|i: int| 0 <= i < e.state.levels.len() implies f.state.tables(
        (#[trigger] e.state.levels[i]).1,
    ) == e.state.tables(e.state.levels[i].1) by {
        let ids = e.state.levels[i].1;
        assert(e.state.level_wf(ids));
        assert forall|j: int| 0 <= j < ids.len() implies #[trigger] f.state.tables(ids)[j]
            == e.state.tables(ids)[j] by {
            assert(e.state.has_table(ids[j]));
        }
        assert(f.state.tables(ids) =~= e.state.tables(ids));
    }
}

/// A table that takes a memtable's place keeps the engine sound.
pub proof fn installed_keeps_wf(e: EngineView, t: TableView)
    requires
        e.wf(),
        e.state.imm_memtables.len() > 0,
        e.state.imm_memtables.last().id == t.id,
        t.wf(),
    ensures
        installed(e, t).wf(),
{
    let f = installed(e, t);
    let imm = f.state.imm_memtables;
    let n = e.state.imm_memtables.len() - 1;
    new_table_is_alone(e, t);
    tables_kept(e, f);
    assert forall|i: int| 0 <= i < imm.len() implies #[trigger] imm[i]
        == e.state.imm_memtables[i] by {}
    assert(f.state.memory_wf());
    assert(f.state.has_table(t.id));
    assert forall|i: int| 0 <= i < f.state.l0_sstables.len() implies f.state.has_table(
        #[trigger] f.state.l0_sstables[i],
    ) by {
        let j = if e.tiered {
            i
        } else {
            i - 1
        };
        if j >= 0 {
            assert(e.state.has_table(e.state.l0_sstables[j]));
            assert(f.state.l0_sstables[i] == e.state.l0_sstables[j]);
        }
    }
    assert forall|i: int| 0 <= i < f.state.levels.len() implies f.state.level_wf(
        (#[trigger] f.state.levels[i]).1,
    ) by {
        let j = if e.tiered {
            i - 1
        } else {
            i
        };
        if j >= 0 {
            let ids = e.state.levels[j].1;
            assert(f.state.levels[i] == e.state.levels[j]);
            assert(e.state.level_wf(ids));
            assert forall|x: int| 0 <= x < ids.len() implies f.state.has_table(
                #[trigger] ids[x],
            ) by {
                assert(e.state.has_table(ids[x]));
            }
        } else {
            assert(f.state.tables(seq![t.id]) =~= seq![t]);
        }
    }
    assert forall|id: usize| #[trigger] f.state.sstables.contains_key(
        id,
    ) implies !f.memtable_has(id) by {
        if f.memtable_has(id) {
            if id == t.id {
                assert(e.state.imm_memtables[n].id == id);
                if f.state.memtable.id != id {
                    let i = choose|i: int| 0 <= i < imm.len() && (#[trigger] imm[i]).id == id;
                    assert(e.state.imm_memtables[i].id == id);
                }
            } else {
                assert(!e.memtable_has(id));
                if f.state.memtable.id != id {
                    let i = choose|i: int| 0 <= i < imm.len() && (#[trigger] imm[i]).id == id;
                    assert(e.state.imm_memtables[i].id == id);
                }
            }
        }
    }
    assert forall|id: usize| #[trigger] f.state.sstables.contains_key(id) implies id
        < f.next_sst_id by {
        if id == t.id {
            assert(e.state.imm_memtables[n].id == id);
        }
    }
}

} // verus!
