//! What holds of stores that are opened again.

use vstd::prelude::*;
use crate::compact::CompactionOptions;
use crate::key;
use crate::key::KeyModel;
use crate::laws;
use crate::lsm_storage::model;
use crate::lsm_storage::model::StateView;
use crate::lsm_storage::recovery;
use crate::lsm_storage::recovery::RecoveryView;
use crate::lsm_storage::steps;
use crate::lsm_storage::actions::{ActionView, ManifestRecord};
use crate::lsm_storage::steps::{CloseStepView, EngineView};
use crate::lsm_storage::table_order;
use crate::lsm_storage::LsmStorageOptions;
use crate::mem_table;
use crate::mem_table::MemView;
use crate::run;
use crate::run::{Entries, Run};
use crate::table::TableView;

verus! {

/// The levels of a replayed manifest are those of the engine. With leveled compaction a level's
/// tables may have been recorded in another order: they are sorted once they are open.
pub open spec fn same_levels(
    replayed: Seq<(usize, Seq<usize>)>,
    levels: Seq<(usize, Seq<usize>)>,
    options: CompactionOptions,
) -> bool {
    if options is Leveled {
        &&& replayed.len() == levels.len()
        &&& forall|n: int|
            0 <= n < levels.len() ==> (#[trigger] replayed[n]).0 == (#[trigger] levels[n]).0
                && replayed[n].1.to_multiset() == levels[n].1.to_multiset()
    } else {
        replayed == levels
    }
}

/// Replaying the manifest gives the tables of the engine.
pub open spec fn same_layout(r: RecoveryView, e: EngineView) -> bool {
    &&& r.options == e.options
    &&& e.tiered == (e.options.compaction_options is Tiered)
    &&& r.l0_sstables == e.state.l0_sstables
    &&& same_levels(r.levels, e.state.levels, e.options.compaction_options)
    &&& r.next_sst_id <= e.next_sst_id
    &&& forall|id: usize| #[trigger] e.state.sstables.contains_key(id) ==> id <= r.next_sst_id
}

/// Replaying the manifest gives the tables of the engine, and leaves its memtables pending.
pub open spec fn mirrors(r: RecoveryView, e: EngineView) -> bool {
    mirrors_frozen(r, e) && r.pending.contains(e.state.memtable.id)
}

/// Replaying the manifest gives the tables of the engine, and leaves its immutable memtables
/// pending.
pub open spec fn mirrors_frozen(r: RecoveryView, e: EngineView) -> bool {
    &&& same_layout(r, e)
    &&& forall|i: int|
        0 <= i < e.state.imm_memtables.len() ==> r.pending.contains(
            (#[trigger] e.state.imm_memtables[i]).id,
        )
    &&& forall|id: usize| #[trigger] r.pending.contains(id) ==> id <= r.next_sst_id
}

/// **The manifest keeps up with the engine** from the start.
pub proof fn manifest_of_new_store(options: LsmStorageOptions)
    ensures
        mirrors(
            recovery::replayed(recovery::unread(options), ManifestRecord::NewMemtable(0)),
            recovery::new_engine(options),
        ),
{
}

/// **The manifest keeps up with the engine** through writes, of which it takes no note.
pub proof fn manifest_through_put(r: RecoveryView, e: EngineView, k: Seq<u8>, v: Seq<u8>)
    requires
        mirrors(r, e),
    ensures
        mirrors(r, steps::put(e, k, v)),
{
}

/// **The manifest keeps up with the engine** through a freeze: before the new memtable takes over,
/// and afterwards.
pub proof fn manifest_through_freeze(r: RecoveryView, e: EngineView)
    requires
        mirrors(r, e),
        e.next_sst_id < usize::MAX,
    ensures
        mirrors(
            recovery::replayed(r, ManifestRecord::NewMemtable(e.next_sst_id)),
            steps::id_taken(e),
        ),
        mirrors(
            recovery::replayed(r, ManifestRecord::NewMemtable(e.next_sst_id)),
            steps::frozen(steps::id_taken(e), steps::replacement(e)),
        ),
{
    let f = steps::frozen(steps::id_taken(e), steps::replacement(e));
    let s = recovery::replayed(r, ManifestRecord::NewMemtable(e.next_sst_id));
    assert forall|i: int| 0 <= i < f.state.imm_memtables.len() implies s.pending.contains(
        (#[trigger] f.state.imm_memtables[i]).id,
    ) by {
        if i > 0 {
            assert(f.state.imm_memtables[i] == e.state.imm_memtables[i - 1]);
        }
    }
}

/// **The manifest keeps up with the engine** through a flush, and the flushed memtable is pending
/// when the flush is recorded.
pub proof fn manifest_through_flush(r: RecoveryView, e: EngineView)
    requires
        mirrors_frozen(r, e),
        e.wf(),
        e.state.imm_memtables.len() > 0,
    ensures
        r.pending.contains(e.state.imm_memtables.last().id),
        mirrors_frozen(
            recovery::replayed(r, ManifestRecord::Flush(e.state.imm_memtables.last().id)),
            steps::installed(e, steps::table_of(e.state.imm_memtables.last())),
        ),
        mirrors(r, e) ==> mirrors(
            recovery::replayed(r, ManifestRecord::Flush(e.state.imm_memtables.last().id)),
            steps::installed(e, steps::table_of(e.state.imm_memtables.last())),
        ),
{
    let n = e.state.imm_memtables.len() - 1;
    let m = e.state.imm_memtables[n];
    let f = steps::installed(e, steps::table_of(m));
    let s = recovery::replayed(r, ManifestRecord::Flush(m.id));
    assert forall|i: int| 0 <= i < f.state.imm_memtables.len() implies s.pending.contains(
        (#[trigger] f.state.imm_memtables[i]).id,
    ) by {
        assert(f.state.imm_memtables[i] == e.state.imm_memtables[i]);
        assert(e.state.imm_memtables[i].id > m.id);
    }
}

/// `f` is what a compaction makes of `e`: the memtables stay, the new tables are the compaction's
/// output, and the layout is the recorded one.
pub open spec fn is_compaction(
    e: EngineView,
    f: EngineView,
    l0_sstables: Seq<usize>,
    levels: Seq<(usize, Seq<usize>)>,
    output: Seq<usize>,
) -> bool {
    &&& f.options == e.options
    &&& f.tiered == e.tiered
    &&& f.state.memtable == e.state.memtable
    &&& f.state.imm_memtables == e.state.imm_memtables
    &&& f.state.l0_sstables == l0_sstables
    &&& same_levels(levels, f.state.levels, e.options.compaction_options)
    &&& e.next_sst_id <= f.next_sst_id
    &&& forall|i: int| 0 <= i < output.len() ==> #[trigger] output[i] < f.next_sst_id
    &&& forall|id: usize| #[trigger]
        f.state.sstables.contains_key(id) ==> e.state.sstables.contains_key(id)
            || output.contains(id)
}

/// The largest of some ids is one of them, and no other is larger.
pub proof fn largest_bounds(ids: Seq<usize>)
    ensures
        forall|i: int| 0 <= i < ids.len() ==> #[trigger] ids[i] <= recovery::largest(ids),
        ids.len() > 0 ==> ids.contains(recovery::largest(ids)),
    decreases ids.len(),
{
    if ids.len() > 0 {
        let rest = ids.drop_last();
        largest_bounds(rest);
        assert forall|i: int| 0 <= i < ids.len() implies #[trigger] ids[i] <= recovery::largest(
            ids,
        ) by {
            if i < rest.len() {
                assert(rest[i] == ids[i]);
            }
        }
        if recovery::largest(ids) == ids.last() {
            assert(ids[ids.len() - 1] == recovery::largest(ids));
        } else {
            let j = choose|j: int| 0 <= j < rest.len() && rest[j] == recovery::largest(rest);
            assert(ids[j] == recovery::largest(ids));
        }
    }
}

/// **The manifest keeps up with the engine** through a compaction.
pub proof fn manifest_through_compaction(
    r: RecoveryView,
    e: EngineView,
    f: EngineView,
    l0_sstables: Seq<usize>,
    levels: Seq<(usize, Seq<usize>)>,
    output: Seq<usize>,
)
    requires
        mirrors(r, e),
        is_compaction(e, f, l0_sstables, levels, output),
    ensures
        mirrors(recovery::compacted(r, l0_sstables, levels, output), f),
{
    let s = recovery::compacted(r, l0_sstables, levels, output);
    largest_bounds(output);
    assert(s.next_sst_id <= f.next_sst_id) by {
        if output.len() > 0 {
            let j = choose|j: int| 0 <= j < output.len() && output[j] == recovery::largest(output);
            assert(output[j] < f.next_sst_id);
        }
    }
    assert forall|id: usize| #[trigger] f.state.sstables.contains_key(id) implies id
        <= s.next_sst_id by {
        if !e.state.sstables.contains_key(id) {
            let j = choose|j: int| 0 <= j < output.len() && output[j] == id;
            assert(output[j] <= recovery::largest(output));
        }
    }
    assert forall|i: int| 0 <= i < f.state.imm_memtables.len() implies s.pending.contains(
        (#[trigger] f.state.imm_memtables[i]).id,
    ) by {
        assert(r.pending.contains(e.state.imm_memtables[i].id));
    }
}

/// The tables are the engine's own.
pub open spec fn same_tables(r: RecoveryView, e: EngineView, tables: Seq<TableView>) -> bool {
    forall|i: int|
        0 <= i < tables.len() ==> #[trigger] tables[i] == e.state.sstables[r.table_ids()[i]]
}

/// A table that has to be opened is one of the engine's.
pub proof fn listed_is_engine_table(r: RecoveryView, e: EngineView, i: int)
    requires
        same_layout(r, e),
        e.wf(),
        0 <= i < r.table_ids().len(),
    ensures
        e.state.has_table(r.table_ids()[i]),
{
    if i < r.l0_sstables.len() {
        assert(e.state.has_table(e.state.l0_sstables[i]));
    } else {
        assert(r.levels.take(r.levels.len() as int) =~= r.levels);
        level_id_is_engine_table(r, e, r.levels.len() as int, i - r.l0_sstables.len());
    }
}

proof fn level_id_is_engine_table(r: RecoveryView, e: EngineView, n: int, i: int)
    requires
        same_layout(r, e),
        e.wf(),
        0 <= n <= r.levels.len(),
        0 <= i < recovery::level_table_ids(r.levels.take(n)).len(),
    ensures
        e.state.has_table(recovery::level_table_ids(r.levels.take(n))[i]),
    decreases n,
{
    if n > 0 {
        let done = r.levels.take(n);
        assert(done.drop_last() =~= r.levels.take(n - 1));
        let before = recovery::level_table_ids(done.drop_last());
        if i < before.len() {
            level_id_is_engine_table(r, e, n - 1, i);
        } else {
            level_holds_engine_table(r, e, n - 1, i - before.len());
        }
    }
}

/// A level of the replayed manifest holds the same tables as the engine's.
proof fn level_holds_engine_table(r: RecoveryView, e: EngineView, n: int, j: int)
    requires
        same_layout(r, e),
        e.wf(),
        0 <= n < r.levels.len(),
        0 <= j < r.levels[n].1.len(),
    ensures
        n < e.state.levels.len(),
        e.state.levels[n].1.contains(r.levels[n].1[j]),
        e.state.has_table(r.levels[n].1[j]),
{
    let (listed, level) = (r.levels[n].1, e.state.levels[n].1);
    let id = listed[j];
    assert(listed.contains(id));
    vstd::seq_lib::to_multiset_contains(listed, id);
    vstd::seq_lib::to_multiset_contains(level, id);
    let x = choose|x: int| 0 <= x < level.len() && level[x] == id;
    assert(e.state.level_wf(level));
    assert(e.state.has_table(level[x]));
}

/// The tables and their order come back.
proof fn tables_come_back(
    r: RecoveryView,
    e: EngineView,
    tables: Seq<TableView>,
    logs: Seq<(usize, Run<Seq<u8>>)>,
)
    requires
        same_layout(r, e),
        e.wf(),
        recovery::all_found(r, tables, logs),
        same_tables(r, e, tables),
    ensures
        ({
            let f = recovery::recovered(r, tables, logs);
            &&& f.state.levels == e.state.levels
            &&& f.state.l0_sources() == e.state.l0_sources()
            &&& f.state.level_sources() == e.state.level_sources()
            &&& f.state.tables_wf()
            &&& forall|id: usize| #[trigger]
                f.state.sstables.contains_key(id) ==> e.state.sstables.contains_key(id)
        }),
{
    let f = recovery::recovered(r, tables, logs);
    let ids = r.table_ids();
    let opened = recovery::opened(tables);
    assert forall|i: int| 0 <= i < tables.len() implies (#[trigger] tables[i]).wf() by {}
    recovery::opened_has_all(tables);
    assert forall|i: int| 0 <= i < ids.len() implies f.state.has_table(#[trigger] ids[i])
        && opened[ids[i]] == e.state.sstables[ids[i]] by {
        assert(tables[i].id == ids[i]);
        found_table(r, e, tables, ids[i]);
    }
    assert forall|id: usize| #[trigger] f.state.sstables.contains_key(
        id,
    ) implies e.state.sstables.contains_key(id) by {
        let t = opened[id];
        let j = choose|j: int| 0 <= j < tables.len() && tables[j] == t;
        assert(tables[j].id == ids[j]);
        listed_is_engine_table(r, e, j);
    }
    assert forall|i: int| 0 <= i < r.l0_sstables.len() implies f.state.has_table(
        #[trigger] r.l0_sstables[i],
    ) && opened[r.l0_sstables[i]] == e.state.sstables[r.l0_sstables[i]] by {
        assert(ids[i] == r.l0_sstables[i]);
    }
    assert(f.state.l0_sources() =~= e.state.l0_sources());
    assert forall|n: int| 0 <= n < e.state.levels.len() implies f.state.tables(
        (#[trigger] e.state.levels[n]).1,
    ) == e.state.tables(e.state.levels[n].1) && f.state.level_wf(e.state.levels[n].1)
        && table_order::sort_by_first(r.levels[n].1, opened) == e.state.levels[n].1 by {
        let (listed, level) = (r.levels[n].1, e.state.levels[n].1);
        assert(e.state.level_wf(level));
        assert(listed.to_multiset() == level.to_multiset());
        assert forall|j: int| 0 <= j < level.len() implies f.state.has_table(#[trigger] level[j])
            && opened[level[j]] == e.state.sstables[level[j]] by {
            assert(level.contains(level[j]));
            vstd::seq_lib::to_multiset_contains(level, level[j]);
            vstd::seq_lib::to_multiset_contains(listed, level[j]);
            let x = choose|x: int| 0 <= x < listed.len() && listed[x] == level[j];
            let at = recovery::level_table_listed(r.levels, n, x);
            assert(ids[r.l0_sstables.len() + at] == level[j]);
        }
        assert(f.state.tables(level) =~= e.state.tables(level));
        assert forall|i: int, j: int| 0 <= i < j < level.len() implies opened[
        #[trigger] level[i]].first().lt(opened[#[trigger] level[j]].first()) by {
            broadcast use key::group_key_order;

            let ts = e.state.tables(level);
            assert(ts[i].last().lt(ts[j].first()));
            assert(ts[i].wf());
            if ts[i].run.len() > 1 {
                assert(ts[i].run[0].0.lt(ts[i].run[ts[i].run.len() - 1].0));
            }
        }
        table_order::sorting_restores(listed, level, opened);
    }
    if r.options.compaction_options is Leveled {
        assert forall|n: int| 0 <= n < r.levels.len() implies #[trigger] recovery::sorted_levels(
            r.levels,
            opened,
        )[n] == e.state.levels[n] by {
            assert(r.levels[n].0 == e.state.levels[n].0);
            assert(table_order::sort_by_first(r.levels[n].1, opened) == e.state.levels[n].1);
        }
        assert(recovery::sorted_levels(r.levels, opened) =~= e.state.levels);
    }
    assert(f.state.levels == e.state.levels);
    assert forall|n: int| 0 <= n < e.state.levels.len() implies (
    #[trigger] f.state.level_sources()[n]) == e.state.level_sources()[n] by {
        assert(f.state.tables(e.state.levels[n].1) == e.state.tables(e.state.levels[n].1));
    }
    assert(f.state.level_sources() =~= e.state.level_sources());
}

proof fn found_table(r: RecoveryView, e: EngineView, tables: Seq<TableView>, id: usize)
    requires
        same_tables(r, e, tables),
        tables.len() == r.table_ids().len(),
        forall|i: int|
            0 <= i < tables.len() ==> (#[trigger] tables[i]).wf() && tables[i].id
                == r.table_ids()[i],
        recovery::opened(tables).contains_key(id),
    ensures
        recovery::opened(tables)[id] == e.state.sstables[id],
        recovery::opened(tables)[id].wf(),
{
    recovery::opened_has_all(tables);
    let t = recovery::opened(tables)[id];
    let j = choose|j: int| 0 <= j < tables.len() && tables[j] == t;
    assert(tables[j].id == id);
}

/// The memtables of an engine, the latest first.
pub open spec fn memtables(e: EngineView) -> Seq<MemView> {
    seq![e.state.memtable] + e.state.imm_memtables
}

/// The logs hold what the memtables hold. Where a log has no memtable, because the engine stopped
/// before the memtable took over, nothing was written to it.
pub open spec fn faithful(mems: Seq<MemView>, logs: Seq<(usize, Run<Seq<u8>>)>) -> bool {
    &&& forall|i: int, j: int|
        0 <= i < logs.len() && 0 <= j < mems.len() && (#[trigger] logs[i]).0 == (
        #[trigger] mems[j]).id ==> mem_table::replay(logs[i].1) == mems[j].entries
    &&& forall|i: int|
        0 <= i < logs.len() && !has_id(mems, (#[trigger] logs[i]).0) ==> mem_table::replay(
            logs[i].1,
        ) == Entries::empty()
}

pub open spec fn has_id(mems: Seq<MemView>, id: usize) -> bool {
    exists|j: int| 0 <= j < mems.len() && (#[trigger] mems[j]).id == id
}

/// **The log keeps up with the memtable**: it starts empty, and a write that is appended to it
/// changes what it leaves as it changes the memtable.
pub proof fn log_through_put(m: MemView, records: Run<Seq<u8>>, k: Seq<u8>, v: Seq<u8>)
    requires
        mem_table::replay(records) == m.entries,
    ensures
        mem_table::replay(records.push((k, v))) == mem_table::put_entry(m, k, v).entries,
        mem_table::replay(Seq::empty()) == mem_table::fresh(m.id, m.logged).entries,
{
    assert(records.push((k, v)).drop_last() =~= records);
}

/// Every memtable has a log, and both are in the order of their ids.
spec fn in_order(mems: Seq<MemView>, logs: Seq<(usize, Run<Seq<u8>>)>) -> bool {
    &&& forall|i: int, j: int|
        0 <= i < j < mems.len() ==> (#[trigger] mems[i]).id > (#[trigger] mems[j]).id
    &&& forall|i: int, j: int|
        0 <= i < j < logs.len() ==> (#[trigger] logs[i]).0 < (#[trigger] logs[j]).0
    &&& forall|j: int|
        0 <= j < mems.len() ==> exists|i: int|
            0 <= i < logs.len() && (#[trigger] logs[i]).0 == (#[trigger] mems[j]).id
}

spec fn entries_of(mems: Seq<MemView>) -> Seq<Entries> {
    mems.map_values(|m: MemView| m.entries)
}

/// What the logs leave is what the memtables held.
proof fn memory_comes_back(mems: Seq<MemView>, logs: Seq<(usize, Run<Seq<u8>>)>)
    requires
        faithful(mems, logs),
        in_order(mems, logs),
    ensures
        run::overlay_all(entries_of(recovery::logged_memtables(logs))) == run::overlay_all(
            entries_of(mems),
        ),
    decreases logs.len(),
{
    if logs.len() == 0 {
        if mems.len() > 0 {
            assert(mems[0].id == mems[0].id);
            let i = choose|i: int| 0 <= i < logs.len() && (#[trigger] logs[i]).0 == mems[0].id;
        }
        assert(entries_of(mems) =~= Seq::empty());
        assert(entries_of(recovery::logged_memtables(logs)) =~= Seq::empty());
    } else {
        let n = logs.len() - 1;
        let rest = logs.drop_last();
        let m = recovery::logged_memtable(logs[n].0, logs[n].1);
        let earlier = recovery::logged_memtables(rest);
        assert forall|i: int| 0 <= i < rest.len() implies #[trigger] rest[i] == logs[i] by {}
        let top = mems.len() > 0 && mems[0].id == logs[n].0;
        let below = if top {
            mems.drop_first()
        } else {
            mems
        };
        assert forall|j: int| 0 <= j < below.len() implies #[trigger] below[j] == mems[if top {
            j + 1
        } else {
            j
        }] by {}
        // The last log has the largest id, so it can only belong to the latest memtable.
        assert forall|j: int| 0 <= j < below.len() implies exists|i: int|
            0 <= i < rest.len() && (#[trigger] rest[i]).0 == (#[trigger] below[j]).id by {
            let at = if top {
                j + 1
            } else {
                j
            };
            let i = choose|i: int|
                0 <= i < logs.len() && (#[trigger] logs[i]).0 == mems[at].id;
            if i == n {
                if at > 0 {
                    assert(mems[0].id > mems[at].id);
                    let z = choose|z: int|
                        0 <= z < logs.len() && (#[trigger] logs[z]).0 == mems[0].id;
                    assert(logs[z].0 > logs[n].0);
                }
            }
            assert(rest[i].0 == below[j].id);
        }
        assert forall|i: int| 0 <= i < rest.len() && !has_id(
            below,
            (#[trigger] rest[i]).0,
        ) implies mem_table::replay(rest[i].1) == Entries::empty() by {
            if has_id(mems, logs[i].0) {
                let j = choose|j: int| 0 <= j < mems.len() && (#[trigger] mems[j]).id == logs[i].0;
                if top && j == 0 {
                    assert(logs[i].0 < logs[n].0);
                } else {
                    let k = if top {
                        j - 1
                    } else {
                        j
                    };
                    assert(below[k].id == logs[i].0);
                }
            }
        }
        memory_comes_back(below, rest);
        if top {
            assert(m.entries == mems[0].entries);
            assert(entries_of(mems).drop_first() =~= entries_of(below));
            assert(entries_of(mems)[0] == mems[0].entries);
        } else {
            assert(!has_id(mems, logs[n].0)) by {
                if has_id(mems, logs[n].0) {
                    let j = choose|j: int|
                        0 <= j < mems.len() && (#[trigger] mems[j]).id == logs[n].0;
                    let z = choose|z: int|
                        0 <= z < logs.len() && (#[trigger] logs[z]).0 == mems[0].id;
                    if j > 0 {
                        assert(mems[0].id > mems[j].id);
                    }
                }
            }
        }
        if m.entries == Entries::empty() {
            assert(run::overlay(m.entries, run::overlay_all(entries_of(below)))
                =~= run::overlay_all(entries_of(below)));
        } else {
            let all = seq![m] + earlier;
            assert(entries_of(all).drop_first() =~= entries_of(earlier));
            assert(entries_of(all)[0] == m.entries);
        }
    }
}

/// What the memtables that logs leave are.
proof fn logged_memtables_facts(mems: Seq<MemView>, logs: Seq<(usize, Run<Seq<u8>>)>)
    requires
        faithful(mems, logs),
        forall|i: int, j: int|
            0 <= i < j < logs.len() ==> (#[trigger] logs[i]).0 < (#[trigger] logs[j]).0,
    ensures
        ({
            let back = recovery::logged_memtables(logs);
            &&& forall|i: int|
                0 <= i < back.len() ==> exists|j: int|
                    0 <= j < mems.len() && (#[trigger] mems[j]).id == (#[trigger] back[i]).id
                        && mems[j].entries == back[i].entries
            &&& forall|i: int|
                0 <= i < back.len() ==> logs.len() > 0 && (#[trigger] back[i]).id
                    <= logs.last().0
            &&& forall|i: int, j: int|
                0 <= i < j < back.len() ==> (#[trigger] back[i]).id > (#[trigger] back[j]).id
        }),
    decreases logs.len(),
{
    if logs.len() > 0 {
        let n = logs.len() - 1;
        let rest = logs.drop_last();
        assert forall|i: int| 0 <= i < rest.len() implies #[trigger] rest[i] == logs[i] by {}
        logged_memtables_facts(mems, rest);
        let m = recovery::logged_memtable(logs[n].0, logs[n].1);
        let earlier = recovery::logged_memtables(rest);
        let back = recovery::logged_memtables(logs);
        if rest.len() > 0 {
            assert(rest.last() == logs[n - 1]);
            assert(logs[n - 1].0 < logs[n].0);
        }
        if m.entries != Entries::empty() {
            assert(has_id(mems, logs[n].0));
            let j = choose|j: int| 0 <= j < mems.len() && (#[trigger] mems[j]).id == logs[n].0;
            assert(mems[j].entries == m.entries);
            assert forall|i: int| 0 <= i < back.len() implies #[trigger] back[i] == if i == 0 {
                m
            } else {
                earlier[i - 1]
            } by {}
        }
    }
}

/// **Opening again brings everything back** where there are logs: the records of the manifest, the
/// tables and the logs give a sound engine that holds what the former one held, whatever it held
/// in memory.
pub proof fn recovery_restores_contents(
    r: RecoveryView,
    e: EngineView,
    tables: Seq<TableView>,
    logs: Seq<(usize, Run<Seq<u8>>)>,
)
    requires
        e.wf(),
        mirrors(r, e),
        e.options.enable_wal,
        r.next_sst_id + 2 <= usize::MAX,
        recovery::all_found(r, tables, logs),
        same_tables(r, e, tables),
        faithful(memtables(e), logs),
    ensures
        recovery::recovered(r, tables, logs).contents() == e.contents(),
        recovery::recovered(r, tables, logs).wf(),
        recovery::recovered(r, tables, logs).state.l0_sstables == e.state.l0_sstables,
        recovery::recovered(r, tables, logs).state.levels == e.state.levels,
{
    let f = recovery::recovered(r, tables, logs);
    let mems = memtables(e);
    let ids = logs.map_values(|l: (usize, Run<Seq<u8>>)| l.0);
    let back = recovery::logged_memtables(logs);
    tables_come_back(r, e, tables, logs);
    assert forall|j: int| 0 <= j < mems.len() implies #[trigger] mems[j] == if j == 0 {
        e.state.memtable
    } else {
        e.state.imm_memtables[j - 1]
    } by {}
    assert forall|i: int, j: int| 0 <= i < j < logs.len() implies (#[trigger] logs[i]).0 < (
    #[trigger] logs[j]).0 by {
        assert(ids[i] < ids[j]);
    }
    assert forall|j: int| 0 <= j < mems.len() implies exists|i: int|
        0 <= i < logs.len() && (#[trigger] logs[i]).0 == (#[trigger] mems[j]).id by {
        assert(r.pending.contains(mems[j].id));
        assert(ids.contains(mems[j].id));
        let i = choose|i: int| 0 <= i < ids.len() && ids[i] == mems[j].id;
        assert(logs[i].0 == mems[j].id);
    }
    memory_comes_back(mems, logs);
    logged_memtables_facts(mems, logs);
    // The new memtable holds nothing, and lies above what the logs leave.
    assert(f.state.memory_sources() =~= seq![Entries::empty()] + entries_of(back));
    assert(e.state.memory_sources() =~= entries_of(mems));
    assert(f.state.memory_sources().drop_first() =~= entries_of(back));
    assert(run::overlay_all(f.state.memory_sources()) =~= run::overlay_all(
        e.state.memory_sources(),
    ));
    same_memory_same_contents(e.state, f.state);
    // The ids are as they should be.
    assert forall|i: int| 0 <= i < back.len() implies model::memtable_wf(#[trigger] back[i])
        && back[i].id <= r.next_sst_id && e.memtable_has(back[i].id) by {
        let j = choose|j: int|
            0 <= j < mems.len() && (#[trigger] mems[j]).id == back[i].id && mems[j].entries
                == back[i].entries;
        if j > 0 {
            assert(model::memtable_wf(e.state.imm_memtables[j - 1]));
            assert(e.state.imm_memtables[j - 1].id == back[i].id);
        }
        assert(r.pending.contains(mems[j].id));
    }
    assert forall|id: usize| #[trigger] f.state.sstables.contains_key(
        id,
    ) implies !f.memtable_has(id) && id < f.next_sst_id by {
        assert(e.state.sstables.contains_key(id));
        assert(!e.memtable_has(id));
    }
}

/// Every memtable that logs leave has one of the logs, and every log that holds something has a
/// memtable.
pub proof fn logs_come_back(logs: Seq<(usize, Run<Seq<u8>>)>, pending: Set<usize>)
    requires
        recovery::ascending(logs.map_values(|l: (usize, Run<Seq<u8>>)| l.0), pending),
    ensures
        forall|id: usize| #[trigger]
            pending.contains(id) ==> exists|i: int|
                0 <= i < logs.len() && (#[trigger] logs[i]).0 == id,
        ({
            let back = recovery::logged_memtables(logs);
            &&& forall|j: int|
                0 <= j < back.len() ==> exists|i: int|
                    0 <= i < logs.len() && (#[trigger] logs[i]).0 == (#[trigger] back[j]).id
                        && mem_table::replay(logs[i].1) == back[j].entries
            &&& forall|i: int|
                0 <= i < logs.len() && mem_table::replay((#[trigger] logs[i]).1)
                    != Entries::empty() ==> exists|j: int|
                    0 <= j < back.len() && (#[trigger] back[j]).id == logs[i].0
        }),
{
    let ids = logs.map_values(|l: (usize, Run<Seq<u8>>)| l.0);
    assert forall|id: usize| #[trigger] pending.contains(id) implies exists|i: int|
        0 <= i < logs.len() && (#[trigger] logs[i]).0 == id by {
        assert(ids.contains(id));
        let i = choose|i: int| 0 <= i < ids.len() && ids[i] == id;
        assert(logs[i].0 == id);
    }
    each_log_comes_back(logs);
}

proof fn each_log_comes_back(logs: Seq<(usize, Run<Seq<u8>>)>)
    ensures
        ({
            let back = recovery::logged_memtables(logs);
            &&& forall|j: int|
                0 <= j < back.len() ==> exists|i: int|
                    0 <= i < logs.len() && (#[trigger] logs[i]).0 == (#[trigger] back[j]).id
                        && mem_table::replay(logs[i].1) == back[j].entries
            &&& forall|i: int|
                0 <= i < logs.len() && mem_table::replay((#[trigger] logs[i]).1)
                    != Entries::empty() ==> exists|j: int|
                    0 <= j < back.len() && (#[trigger] back[j]).id == logs[i].0
        }),
    decreases logs.len(),
{
    if logs.len() > 0 {
        let n = logs.len() - 1;
        let rest = logs.drop_last();
        let earlier = recovery::logged_memtables(rest);
        let back = recovery::logged_memtables(logs);
        let m = recovery::logged_memtable(logs[n].0, logs[n].1);
        let more: int = if m.entries == Entries::empty() {
            0
        } else {
            1
        };
        each_log_comes_back(rest);
        assert forall|j: int| 0 <= j < back.len() implies #[trigger] back[j] == if j < more {
            m
        } else {
            earlier[j - more]
        } by {}
        assert forall|j: int| 0 <= j < back.len() implies exists|i: int|
            0 <= i < logs.len() && (#[trigger] logs[i]).0 == (#[trigger] back[j]).id
                && mem_table::replay(logs[i].1) == back[j].entries by {
            if j < more {
                assert(logs[n].0 == back[j].id);
            } else {
                let i = choose|i: int|
                    0 <= i < rest.len() && (#[trigger] rest[i]).0 == earlier[j - more].id
                        && mem_table::replay(rest[i].1) == earlier[j - more].entries;
                assert(logs[i] == rest[i]);
            }
        }
        assert forall|i: int|
            0 <= i < logs.len() && mem_table::replay((#[trigger] logs[i]).1)
                != Entries::empty() implies exists|j: int|
            0 <= j < back.len() && (#[trigger] back[j]).id == logs[i].0 by {
            if i == n {
                assert(back[0].id == logs[i].0);
            } else {
                assert(rest[i] == logs[i]);
                let j = choose|j: int| 0 <= j < earlier.len() && (#[trigger] earlier[j]).id
                    == rest[i].0;
                assert(back[j + more].id == logs[i].0);
            }
        }
    }
}

/// The memtables that logs leave hold something.
proof fn logged_memtables_not_idle(logs: Seq<(usize, Run<Seq<u8>>)>)
    ensures
        forall|i: int|
            0 <= i < recovery::logged_memtables(logs).len() ==> (
            #[trigger] recovery::logged_memtables(logs)[i]).entries != Entries::empty(),
    decreases logs.len(),
{
    if logs.len() > 0 {
        let earlier = recovery::logged_memtables(logs.drop_last());
        let back = recovery::logged_memtables(logs);
        logged_memtables_not_idle(logs.drop_last());
        assert forall|i: int| 0 <= i < back.len() implies (#[trigger] back[i]).entries
            != Entries::empty() by {
            if back.len() > earlier.len() && i > 0 {
                assert(back[i] == earlier[i - 1]);
            } else if back.len() == earlier.len() {
                assert(back[i] == earlier[i]);
            }
        }
    }
}

/// The record that opening a store again writes.
pub open spec fn opening_record(r: RecoveryView) -> ManifestRecord {
    ManifestRecord::NewMemtable((r.next_sst_id + 1) as usize)
}

/// **The manifest keeps up with the engine** through opening a store with logs again, and no idle
/// memtable arises. So what holds of a store that was opened once holds however often it is
/// opened.
pub proof fn manifest_through_open(
    r: RecoveryView,
    e: EngineView,
    tables: Seq<TableView>,
    logs: Seq<(usize, Run<Seq<u8>>)>,
)
    requires
        e.wf(),
        mirrors(r, e),
        e.options.enable_wal,
        r.next_sst_id + 2 <= usize::MAX,
        recovery::all_found(r, tables, logs),
        same_tables(r, e, tables),
        faithful(memtables(e), logs),
    ensures
        mirrors(
            recovery::replayed(r, opening_record(r)),
            recovery::recovered(r, tables, logs),
        ),
        laws::nothing_idle(recovery::recovered(r, tables, logs)),
{
    let f = recovery::recovered(r, tables, logs);
    let s = recovery::replayed(r, opening_record(r));
    let mems = memtables(e);
    let ids = logs.map_values(|l: (usize, Run<Seq<u8>>)| l.0);
    let back = recovery::logged_memtables(logs);
    tables_come_back(r, e, tables, logs);
    assert forall|i: int, j: int| 0 <= i < j < logs.len() implies (#[trigger] logs[i]).0 < (
    #[trigger] logs[j]).0 by {
        assert(ids[i] < ids[j]);
    }
    logged_memtables_facts(mems, logs);
    logged_memtables_not_idle(logs);
    assert forall|i: int| 0 <= i < back.len() implies s.pending.contains(
        (#[trigger] back[i]).id,
    ) by {
        let j = choose|j: int|
            0 <= j < mems.len() && (#[trigger] mems[j]).id == back[i].id && mems[j].entries
                == back[i].entries;
        if j > 0 {
            assert(mems[j] == e.state.imm_memtables[j - 1]);
        }
        assert(r.pending.contains(mems[j].id));
    }
}

/// **The manifest keeps up with the engine** through opening a store without logs again, where the
/// former engine held nothing in memory.
pub proof fn manifest_through_open_without_logs(
    r: RecoveryView,
    e: EngineView,
    tables: Seq<TableView>,
    logs: Seq<(usize, Run<Seq<u8>>)>,
)
    requires
        e.wf(),
        mirrors_frozen(r, e),
        !e.options.enable_wal,
        e.state.imm_memtables.len() == 0,
        r.next_sst_id + 2 <= usize::MAX,
        recovery::all_found(r, tables, logs),
        same_tables(r, e, tables),
    ensures
        mirrors(
            recovery::replayed(r, opening_record(r)),
            recovery::recovered(r, tables, logs),
        ),
        laws::nothing_idle(recovery::recovered(r, tables, logs)),
{
    tables_come_back(r, e, tables, logs);
}

/// Where the memtables hold the same together and the tables do, so do the stores.
proof fn same_memory_same_contents(s: StateView, t: StateView)
    requires
        run::overlay_all(s.memory_sources()) == run::overlay_all(t.memory_sources()),
        s.l0_sources() == t.l0_sources(),
        s.level_sources() == t.level_sources(),
    ensures
        s.contents() == t.contents(),
{
    run::overlay_all_concat(s.memory_sources(), s.l0_sources());
    run::overlay_all_concat(s.memory_sources() + s.l0_sources(), s.level_sources());
    run::overlay_all_concat(t.memory_sources(), t.l0_sources());
    run::overlay_all_concat(t.memory_sources() + t.l0_sources(), t.level_sources());
}

/// **Opening again brings back what was flushed** where there are no logs: an engine that held
/// nothing in memory, as after a close, comes back whole.
pub proof fn recovery_restores_tables(
    r: RecoveryView,
    e: EngineView,
    tables: Seq<TableView>,
    logs: Seq<(usize, Run<Seq<u8>>)>,
)
    requires
        e.wf(),
        same_layout(r, e),
        !e.options.enable_wal,
        e.state.memtable.entries == Entries::empty(),
        e.state.imm_memtables.len() == 0,
        r.next_sst_id + 2 <= usize::MAX,
        recovery::all_found(r, tables, logs),
        same_tables(r, e, tables),
    ensures
        recovery::recovered(r, tables, logs).contents() == e.contents(),
        recovery::recovered(r, tables, logs).wf(),
        recovery::recovered(r, tables, logs).state.l0_sstables == e.state.l0_sstables,
        recovery::recovered(r, tables, logs).state.levels == e.state.levels,
{
    let f = recovery::recovered(r, tables, logs);
    tables_come_back(r, e, tables, logs);
    assert(f.state.memory_sources() =~= e.state.memory_sources());
    same_memory_same_contents(e.state, f.state);
    assert forall|id: usize| #[trigger] f.state.sstables.contains_key(
        id,
    ) implies !f.memtable_has(id) && id < f.next_sst_id by {
        assert(e.state.sstables.contains_key(id));
    }
}

/// A record of a manifest, compactions included.
pub enum HistoryRecord {
    Layout(ManifestRecord),
    Compaction { l0_sstables: Seq<usize>, levels: Seq<(usize, Seq<usize>)>, output: Seq<usize> },
}

/// All records of a manifest replayed.
pub open spec fn replayed_history(r: RecoveryView, records: Seq<HistoryRecord>) -> RecoveryView
    decreases records.len(),
{
    if records.len() == 0 {
        r
    } else {
        let before = replayed_history(r, records.drop_last());
        match records.last() {
            HistoryRecord::Layout(record) => recovery::replayed(before, record),
            HistoryRecord::Compaction { l0_sstables, levels, output } => recovery::compacted(
                before,
                l0_sstables,
                levels,
                output,
            ),
        }
    }
}

/// The record names the id: of a memtable, of a flushed table, or of a table that a compaction
/// wrote.
pub open spec fn names_id(record: HistoryRecord, id: usize) -> bool {
    match record {
        HistoryRecord::Layout(ManifestRecord::NewMemtable(x)) => x == id,
        HistoryRecord::Layout(ManifestRecord::Flush(x)) => x == id,
        HistoryRecord::Compaction { output, .. } => output.contains(id),
    }
}

proof fn history_keeps_largest(r: RecoveryView, records: Seq<HistoryRecord>)
    ensures
        r.next_sst_id <= replayed_history(r, records).next_sst_id,
        forall|i: int, id: usize|
            0 <= i < records.len() && #[trigger] names_id(records[i], id) ==> id
                <= replayed_history(r, records).next_sst_id,
    decreases records.len(),
{
    if records.len() > 0 {
        let rest = records.drop_last();
        history_keeps_largest(r, rest);
        assert forall|i: int, id: usize|
            0 <= i < records.len() && #[trigger] names_id(records[i], id) implies id
            <= replayed_history(r, records).next_sst_id by {
            if i < rest.len() {
                assert(names_id(rest[i], id));
            } else if let HistoryRecord::Compaction { output, .. } = records.last() {
                largest_bounds(output);
                let j = choose|j: int| 0 <= j < output.len() && output[j] == id;
                assert(output[j] <= recovery::largest(output));
            }
        }
    }
}

/// **New ids are free**: the memtable of a store that is opened again, and every id it gives away
/// later, exceed every id that a record of the manifest names.
pub proof fn new_ids_are_free(
    options: LsmStorageOptions,
    records: Seq<HistoryRecord>,
    tables: Seq<TableView>,
    logs: Seq<(usize, Run<Seq<u8>>)>,
)
    requires
        replayed_history(recovery::unread(options), records).next_sst_id + 2 <= usize::MAX,
    ensures
        ({
            let r = replayed_history(recovery::unread(options), records);
            let f = recovery::recovered(r, tables, logs);
            &&& f.state.memtable.id < f.next_sst_id
            &&& forall|i: int, id: usize|
                0 <= i < records.len() && #[trigger] names_id(records[i], id) ==> id
                    < f.state.memtable.id
            &&& recovery::recovery_actions(r).contains(
                ActionView::AddRecord(ManifestRecord::NewMemtable(f.state.memtable.id)),
            )
        }),
{
    let r = replayed_history(recovery::unread(options), records);
    let f = recovery::recovered(r, tables, logs);
    history_keeps_largest(recovery::unread(options), records);
    let at = recovery::recovery_actions(r).len() - 2;
    assert(recovery::recovery_actions(r)[at] == ActionView::AddRecord(
        ManifestRecord::NewMemtable(f.state.memtable.id),
    ));
}

/// **The tables of a store that is opened again are those of its layout**: none is missing, and a
/// table that is no longer part of the layout is not opened.
pub proof fn opened_tables_are_the_layout(
    r: RecoveryView,
    tables: Seq<TableView>,
    logs: Seq<(usize, Run<Seq<u8>>)>,
)
    requires
        recovery::all_found(r, tables, logs),
    ensures
        forall|id: usize| #[trigger]
            recovery::recovered(r, tables, logs).state.sstables.contains_key(id)
                <==> r.table_ids().contains(id),
{
    let ids = r.table_ids();
    assert forall|i: int| 0 <= i < tables.len() implies (#[trigger] tables[i]).wf() by {}
    recovery::opened_has_all(tables);
    assert forall|id: usize| #[trigger] recovery::recovered(
        r,
        tables,
        logs,
    ).state.sstables.contains_key(id) <==> ids.contains(id) by {
        let opened = recovery::opened(tables);
        if opened.contains_key(id) {
            let j = choose|j: int| 0 <= j < tables.len() && tables[j] == opened[id];
            assert(tables[j].id == ids[j]);
        }
        if ids.contains(id) {
            let j = choose|j: int| 0 <= j < ids.len() && ids[j] == id;
            assert(tables[j].id == ids[j]);
        }
    }
}

/// Records replayed one after the other.
pub open spec fn replayed_all(r: RecoveryView, records: Seq<ManifestRecord>) -> RecoveryView
    decreases records.len(),
{
    if records.len() == 0 {
        r
    } else {
        replayed_all(recovery::replayed(r, records[0]), records.drop_first())
    }
}

/// Every flush among the records names a memtable that is pending then.
pub open spec fn can_replay(r: RecoveryView, records: Seq<ManifestRecord>) -> bool
    decreases records.len(),
{
    records.len() > 0 ==> {
        &&& records[0] matches ManifestRecord::Flush(id) ==> r.pending.contains(id)
        &&& can_replay(recovery::replayed(r, records[0]), records.drop_first())
    }
}

/// The records that are written when all immutable memtables are flushed, from the earliest on.
pub open spec fn drain_records(imm: Seq<MemView>) -> Seq<ManifestRecord>
    decreases imm.len(),
{
    if imm.len() == 0 {
        Seq::empty()
    } else {
        seq![ManifestRecord::Flush(imm.last().id)] + drain_records(imm.drop_last())
    }
}

/// The records that closing a store without logs writes.
pub open spec fn close_records(e: EngineView) -> Seq<ManifestRecord> {
    if e.state.memtable.entries == Entries::empty() {
        drain_records(e.state.imm_memtables)
    } else {
        drain_records(memtables(e))
    }
}

proof fn manifest_through_drain(r: RecoveryView, e: EngineView)
    requires
        mirrors_frozen(r, e),
        e.wf(),
        laws::nothing_idle(e),
    ensures
        can_replay(r, drain_records(e.state.imm_memtables)),
        mirrors_frozen(
            replayed_all(r, drain_records(e.state.imm_memtables)),
            laws::close_rest(e, CloseStepView::Drain),
        ),
    decreases e.state.imm_memtables.len(),
{
    let imm = e.state.imm_memtables;
    let records = drain_records(imm);
    if imm.len() > 0 {
        let t = steps::table_of(imm.last());
        let f = steps::installed(e, t);
        let s = recovery::replayed(r, ManifestRecord::Flush(imm.last().id));
        assert(imm[imm.len() - 1].entries != Entries::empty());
        manifest_through_flush(r, e);
        laws::flush_keeps_sources(e);
        laws::nothing_idle_through_flush(e, t);
        manifest_through_drain(s, f);
        assert(records[0] == ManifestRecord::Flush(imm.last().id));
        assert(records.drop_first() =~= drain_records(imm.drop_last()));
        reveal_with_fuel(laws::close_rest, 3);
    }
}

/// **A store without logs that was closed comes back whole**: the records that closing writes can
/// be replayed, the engine that is opened on them holds what the closed one held, and the manifest
/// keeps up with it, so that it can be closed and opened again.
pub proof fn close_and_open_again(
    r: RecoveryView,
    e: EngineView,
    tables: Seq<TableView>,
    logs: Seq<(usize, Run<Seq<u8>>)>,
)
    requires
        e.wf(),
        mirrors(r, e),
        !e.options.enable_wal,
        laws::nothing_idle(e),
        e.next_sst_id < usize::MAX,
        replayed_all(r, close_records(e)).next_sst_id + 2 <= usize::MAX,
        recovery::all_found(replayed_all(r, close_records(e)), tables, logs),
        same_tables(
            replayed_all(r, close_records(e)),
            laws::close_rest(e, CloseStepView::Begin),
            tables,
        ),
    ensures
        can_replay(r, close_records(e)),
        recovery::recovered(replayed_all(r, close_records(e)), tables, logs).contents()
            == e.contents(),
        recovery::recovered(replayed_all(r, close_records(e)), tables, logs).wf(),
        laws::nothing_idle(
            recovery::recovered(replayed_all(r, close_records(e)), tables, logs),
        ),
        mirrors(
            recovery::replayed(
                replayed_all(r, close_records(e)),
                opening_record(replayed_all(r, close_records(e))),
            ),
            recovery::recovered(replayed_all(r, close_records(e)), tables, logs),
        ),
{
    let c = laws::close_rest(e, CloseStepView::Begin);
    laws::close_keeps_contents(e);
    reveal_with_fuel(laws::close_rest, 3);
    if e.state.memtable.entries == Entries::empty() {
        manifest_through_drain(r, e);
    } else {
        let m = mem_table::fresh(e.next_sst_id, false);
        let f = steps::frozen(steps::id_taken(e), m);
        steps::replacement_is_free(e);
        steps::frozen_keeps_wf(steps::id_taken(e), m);
        assert forall|i: int| 0 <= i < f.state.imm_memtables.len() implies
            #[trigger] f.state.imm_memtables[i] == if i == 0 {
            e.state.memtable
        } else {
            e.state.imm_memtables[i - 1]
        } by {}
        manifest_through_drain(r, f);
    }
    recovery_restores_tables(replayed_all(r, close_records(e)), c, tables, logs);
    manifest_through_open_without_logs(replayed_all(r, close_records(e)), c, tables, logs);
}

} // verus!
