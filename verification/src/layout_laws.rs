//! What operations do to the layout of the store, counted out: when the memtable is frozen, where a
//! table goes, which source decides on a key, and which ids are given away.

use vstd::prelude::*;
use crate::compact::CompactionOptions;
use crate::iterators::concat_iterator;
use crate::laws;
use crate::lsm_storage;
use crate::lsm_storage::actions::ManifestRecord;
use crate::lsm_storage::flush;
use crate::lsm_storage::model::StateView;
use crate::lsm_storage::recovery;
use crate::lsm_storage::recovery::RecoveryView;
use crate::lsm_storage::steps;
use crate::lsm_storage::steps::{EngineView, ForceFlushStepView, WriteStepView};
use crate::lsm_storage::table_order;
use crate::lsm_storage::{AsBytes, LsmStorageOptions, WriteBatchRecord};
use crate::mem_table;
use crate::mem_table::MemView;
use crate::recovery_laws;
use crate::recovery_laws::HistoryRecord;
use crate::run;
use crate::run::{Entries, Run};
use crate::table;
use crate::table::TableView;

verus! {

/// The bytes that a record submits count once, wherever it stands.
proof fn submitted_from_front(entries: Seq<(Seq<u8>, Seq<u8>)>)
    requires
        entries.len() > 0,
    ensures
        mem_table::submitted(entries) == entries[0].0.len() + entries[0].1.len()
            + mem_table::submitted(entries.drop_first()),
    decreases entries.len(),
{
    let rest = entries.drop_first();
    if entries.len() == 1 {
        assert(entries.drop_last() =~= Seq::empty());
        assert(rest =~= Seq::empty());
        reveal_with_fuel(mem_table::submitted, 2);
    } else {
        submitted_from_front(entries.drop_last());
        assert(entries.drop_last().drop_first() =~= rest.drop_last());
        assert(entries.drop_last()[0] == entries[0]);
        assert(rest.last() == entries.last());
    }
}

/// **A write that stays below the target freezes nothing**: the memtable takes the entry and counts
/// its bytes, and nothing else of the layout changes.
pub proof fn write_below_target_stays(e: EngineView, k: Seq<u8>, v: Seq<u8>)
    requires
        e.state.memtable.size + k.len() + v.len() < e.options.target_sst_size,
    ensures
        ({
            let f = laws::write_all(e, seq![(k, v)]);
            &&& f.state.memtable.id == e.state.memtable.id
            &&& f.state.memtable.entries == e.state.memtable.entries.insert(k, v)
            &&& f.state.memtable.size == e.state.memtable.size + k.len() + v.len()
            &&& f.state.memtable.logged == e.state.memtable.logged
            &&& f.state.imm_memtables == e.state.imm_memtables
            &&& f.next_sst_id == e.next_sst_id
        }),
{
    laws::one_record(e, k, v);
}

/// **A write that reaches the target freezes the memtable**, with the entry in it: it becomes the
/// latest immutable one, and a memtable without entries takes over under the next id.
pub proof fn write_reaching_target_freezes(e: EngineView, k: Seq<u8>, v: Seq<u8>)
    requires
        e.options.target_sst_size <= e.state.memtable.size + k.len() + v.len() <= usize::MAX,
        e.next_sst_id < usize::MAX,
    ensures
        ({
            let f = laws::write_all(e, seq![(k, v)]);
            &&& f.state.imm_memtables.len() == e.state.imm_memtables.len() + 1
            &&& f.state.imm_memtables[0].id == e.state.memtable.id
            &&& f.state.imm_memtables[0].entries == e.state.memtable.entries.insert(k, v)
            &&& f.state.imm_memtables[0].size == e.state.memtable.size + k.len() + v.len()
            &&& f.state.imm_memtables[0].logged == e.state.memtable.logged
            &&& forall|i: int|
                0 <= i < e.state.imm_memtables.len() ==> f.state.imm_memtables[i + 1]
                    == #[trigger] e.state.imm_memtables[i]
            &&& f.state.memtable.id == e.next_sst_id
            &&& f.state.memtable.entries == Entries::empty()
            &&& f.state.memtable.size == 0
            &&& f.state.memtable.logged == e.options.enable_wal
            &&& f.next_sst_id == e.next_sst_id + 1
        }),
{
    laws::one_record(e, k, v);
}

/// **The bytes submitted since a memtable took over decide whether a write freezes it**, overwrites
/// counted as well: it is frozen exactly if the write brings them to the target.
pub proof fn submissions_decide_on_freeze(
    e: EngineView,
    puts: Seq<(Seq<u8>, Seq<u8>)>,
    k: Seq<u8>,
    v: Seq<u8>,
)
    requires
        e.state.memtable == mem_table::put_all(
            mem_table::fresh(e.state.memtable.id, e.state.memtable.logged),
            puts,
        ),
        mem_table::submitted(puts) + k.len() + v.len() <= usize::MAX,
        e.next_sst_id < usize::MAX,
    ensures
        ({
            let f = laws::write_all(e, seq![(k, v)]);
            let total = mem_table::submitted(puts) + k.len() + v.len();
            if total >= e.options.target_sst_size {
                f.state.imm_memtables.len() == e.state.imm_memtables.len() + 1
                    && f.state.memtable.id == e.next_sst_id && f.state.memtable.size == 0
            } else {
                f.state.imm_memtables.len() == e.state.imm_memtables.len() && f.state.memtable.id
                    == e.state.memtable.id && f.state.memtable.size == total
            }
        }),
{
    mem_table::size_counts_submitted_bytes(e.state.memtable.id, e.state.memtable.logged, puts);
    if mem_table::submitted(puts) + k.len() + v.len() >= e.options.target_sst_size {
        write_reaching_target_freezes(e, k, v);
    } else {
        write_below_target_stays(e, k, v);
    }
}

/// **A batch that stays below the target freezes nothing**, whatever number of records it has.
pub proof fn batch_below_target_stays(e: EngineView, entries: Seq<(Seq<u8>, Seq<u8>)>)
    requires
        e.state.memtable.size + mem_table::submitted(entries) < e.options.target_sst_size,
    ensures
        ({
            let f = laws::write_all(e, entries);
            &&& f.state.imm_memtables == e.state.imm_memtables
            &&& f.state.memtable.id == e.state.memtable.id
            &&& f.state.memtable.size == e.state.memtable.size + mem_table::submitted(entries)
            &&& f.next_sst_id == e.next_sst_id
        }),
    decreases entries.len(),
{
    if entries.len() == 0 {
        laws::last_record_decides(e, entries);
    } else {
        let (k, v) = entries[0];
        let f = laws::write_all(e, seq![entries[0]]);
        submitted_from_front(entries);
        assert(seq![entries[0]] =~= seq![(k, v)]);
        write_below_target_stays(e, k, v);
        laws::one_record(e, k, v);
        laws::batch_is_single_writes(e, entries);
        batch_below_target_stays(f, entries.drop_first());
    }
}

/// **The size is checked again before a freeze**: another writer may have frozen the memtable that
/// gave the estimate. Only if both sizes reach the target does another memtable get ready to take
/// over, and it is empty and has an id of its own.
pub proof fn size_is_checked_twice(
    e: EngineView,
    entries: Seq<(Seq<u8>, Seq<u8>)>,
    i: int,
    estimated_size: usize,
)
    requires
        e.next_sst_id < usize::MAX,
    ensures
        ({
            let target = e.options.target_sst_size;
            let (f, next) = steps::write_step(
                e,
                entries,
                WriteStepView::TryFreeze(i, estimated_size),
            );
            if estimated_size >= target && e.state.memtable.size >= target {
                &&& next matches WriteStepView::Publish(j, m)
                &&& j == i
                &&& m.id == e.next_sst_id
                &&& m.entries == Entries::empty()
                &&& m.size == 0
                &&& m.logged == e.options.enable_wal
                &&& f.state == e.state
                &&& f.next_sst_id == e.next_sst_id + 1
            } else {
                f == e && next == WriteStepView::Put(i + 1)
            }
        }),
{
}

/// **A key reads as the last record of a batch says that names it**: as the value that was put, or
/// not at all after a deletion.
pub proof fn batch_reads_back<T: AsBytes>(
    e: EngineView,
    batch: Seq<WriteBatchRecord<T>>,
    i: int,
    k: Seq<u8>,
)
    requires
        0 <= i < batch.len(),
        match batch[i] {
            WriteBatchRecord::Put(key, value) => key.bytes() == k && value.bytes().len() > 0,
            WriteBatchRecord::Del(key) => key.bytes() == k,
        },
        forall|j: int|
            i < j < batch.len() ==> match #[trigger] batch[j] {
                WriteBatchRecord::Put(key, _) => key.bytes() != k,
                WriteBatchRecord::Del(key) => key.bytes() != k,
            },
    ensures
        ({
            let f = laws::write_all(e, lsm_storage::batch_entries(batch));
            match batch[i] {
                WriteBatchRecord::Put(_, value) => f.state.lookup(k) == Some(value.bytes()),
                WriteBatchRecord::Del(_) => f.state.lookup(k) is None,
            }
        }),
{
    let entries = lsm_storage::batch_entries(batch);
    lsm_storage::records_write_their_fields(batch);
    laws::last_record_decides(e, entries);
    let later = entries.skip(i + 1);
    if laws::is_written(later, k) {
        let j = choose|j: int| 0 <= j < later.len() && (#[trigger] later[j]).0 == k;
        assert(later[j] == entries[i + 1 + j]);
        assert(batch[i + 1 + j] == batch[i + 1 + j]);
        assert(false);
    }
    assert(entries[i].0 == k);
}

/// **A flush moves the earliest immutable memtable to the place of the latest table**: to the front
/// of L0, or with tiers to a tier of its own on top. The table has the memtable's id and holds its
/// entries in order, and all other memory and tables stay.
pub proof fn flush_moves_earliest(e: EngineView)
    requires
        e.wf(),
        e.state.imm_memtables.len() > 0,
        e.state.imm_memtables.last().entries != Entries::empty(),
    ensures
        ({
            let m = e.state.imm_memtables.last();
            let t = steps::table_of(m);
            let f = steps::installed(e, t);
            &&& t.id == m.id
            &&& run::sorted(t.run)
            &&& run::run_map(t.run) == m.entries
            &&& t.filter == table::filter_for(t.run)
            &&& f.state.memtable == e.state.memtable
            &&& f.state.imm_memtables == e.state.imm_memtables.drop_last()
            &&& f.state.sstables.contains_key(m.id) && f.state.sstables[m.id] == t
            &&& forall|id: usize|
                id != m.id ==> (#[trigger] f.state.sstables.contains_key(id)
                    <==> e.state.sstables.contains_key(id))
            &&& forall|id: usize| #[trigger]
                e.state.sstables.contains_key(id) ==> f.state.sstables[id]
                    == e.state.sstables[id]
            &&& !e.tiered ==> f.state.levels == e.state.levels && f.state.l0_sstables.len()
                == e.state.l0_sstables.len() + 1 && f.state.l0_sstables[0] == m.id
                && f.state.l0_sstables.drop_first() == e.state.l0_sstables
            &&& e.tiered ==> f.state.l0_sstables == e.state.l0_sstables && f.state.levels.len()
                == e.state.levels.len() + 1 && f.state.levels[0].0 == m.id
                && f.state.levels[0].1.len() == 1 && f.state.levels[0].1[0] == m.id
                && f.state.levels.drop_first() == e.state.levels
            &&& f.next_sst_id == e.next_sst_id
            &&& f.options == e.options
            &&& f.tiered == e.tiered
        }),
{
    let m = e.state.imm_memtables.last();
    let t = steps::table_of(m);
    let f = steps::installed(e, t);
    run::listing_exists(m.entries);
    steps::new_table_is_alone(e, t);
    assert(f.state.l0_sstables.drop_first() =~= if e.tiered {
        e.state.l0_sstables.drop_first()
    } else {
        e.state.l0_sstables
    });
    assert(e.tiered ==> f.state.levels.drop_first() =~= e.state.levels);
}

/// **Whatever memtable takes over is the current one**, and the former one is the latest immutable
/// one, as it was.
pub proof fn taking_over_keeps_memtables(e: EngineView, m: MemView)
    ensures
        steps::frozen(e, m).state.memtable == m,
        steps::frozen(e, m).state.imm_memtables.len() == e.state.imm_memtables.len() + 1,
        steps::frozen(e, m).state.imm_memtables[0] == e.state.memtable,
        steps::frozen(e, m).state.imm_memtables.drop_first() == e.state.imm_memtables,
        steps::frozen(e, m).next_sst_id == e.next_sst_id,
{
    assert(steps::frozen(e, m).state.imm_memtables.drop_first() =~= e.state.imm_memtables);
}

/// **A freeze swaps memtables**: one without entries takes over under the next id, and the former
/// one becomes the latest immutable one. No table is touched.
pub proof fn freeze_swaps_memtables(e: EngineView)
    requires
        e.next_sst_id < usize::MAX,
    ensures
        ({
            let f = steps::frozen(steps::id_taken(e), steps::replacement(e));
            &&& f.state.memtable.id == e.next_sst_id
            &&& f.state.memtable.entries == Entries::empty()
            &&& f.state.memtable.size == 0
            &&& f.state.memtable.logged == e.options.enable_wal
            &&& f.state.imm_memtables.len() == e.state.imm_memtables.len() + 1
            &&& f.state.imm_memtables[0] == e.state.memtable
            &&& f.state.imm_memtables.drop_first() == e.state.imm_memtables
            &&& f.state.l0_sstables == e.state.l0_sstables
            &&& f.state.levels == e.state.levels
            &&& f.state.sstables == e.state.sstables
            &&& f.next_sst_id == e.next_sst_id + 1
            &&& f.options == e.options
            &&& f.tiered == e.tiered
        }),
{
    let f = steps::frozen(steps::id_taken(e), steps::replacement(e));
    assert(f.state.imm_memtables.drop_first() =~= e.state.imm_memtables);
}

/// **A forced flush takes four steps at most**, and leaves one memtable less: the current one is
/// frozen if it holds something, and then the earliest immutable one, if there is one, becomes a
/// table under its id.
pub proof fn force_flush_writes_earliest(e: EngineView)
    requires
        e.wf(),
        laws::nothing_idle(e),
        e.next_sst_id < usize::MAX,
    ensures
        ({
            let (e1, s1) = steps::force_flush_step(e, ForceFlushStepView::Begin);
            let (e2, s2) = steps::force_flush_step(e1, s1);
            let (e3, s3) = steps::force_flush_step(e2, s2);
            let (f, done) = steps::force_flush_step(e3, s3);
            let imm = e.state.imm_memtables;
            let holds = e.state.memtable.entries != Entries::empty();
            let earliest = if imm.len() > 0 {
                imm.last()
            } else {
                e.state.memtable
            };
            &&& done is Done
            &&& f.state.memtable.entries == Entries::empty()
            &&& holds ==> f.state.memtable.id == e.next_sst_id && f.state.imm_memtables.len()
                == imm.len()
            &&& !holds ==> f.state.memtable == e.state.memtable
            &&& !holds && imm.len() > 0 ==> f.state.imm_memtables.len() == imm.len() - 1
            &&& holds || imm.len() > 0 ==> f.state.sstables.contains_key(earliest.id)
                && f.state.sstables[earliest.id].entries() == earliest.entries
            &&& !holds && imm.len() == 0 ==> f == e
        }),
{
    let holds = e.state.memtable.entries != Entries::empty();
    let g = if holds {
        steps::frozen(steps::id_taken(e), steps::replacement(e))
    } else {
        e
    };
    if holds {
        freeze_swaps_memtables(e);
        steps::replacement_is_free(e);
        steps::frozen_keeps_wf(steps::id_taken(e), steps::replacement(e));
        laws::nothing_idle_through_freeze(steps::id_taken(e), steps::replacement(e));
    }
    let n = g.state.imm_memtables.len() - 1;
    if n >= 0 {
        if holds && e.state.imm_memtables.len() > 0 {
            assert(g.state.imm_memtables.drop_first()[n - 1] == e.state.imm_memtables[n - 1]);
        }
        assert(g.state.imm_memtables[n].entries != Entries::empty());
        flush_moves_earliest(g);
    }
}

/// **A flush is due when there are more memtables than the options allow**, the current one
/// counted.
pub proof fn flush_is_due_beyond_limit(e: EngineView)
    ensures
        flush::is_flush_due(e) <==> e.state.memory_sources().len() > e.options.num_memtable_limit,
{
}

/// **The current memtable decides first** on a key, tombstones included.
pub proof fn memtable_decides_first(s: StateView, k: Seq<u8>)
    requires
        s.memtable.entries.contains_key(k),
    ensures
        s.lookup(k) == if s.memtable.entries[k].len() > 0 {
            Some(s.memtable.entries[k])
        } else {
            None
        },
{
    assert(s.sources()[0] == s.memtable.entries);
    run::overlay_all_first(s.sources(), 0, k);
}

/// No memtable has the key.
pub open spec fn not_in_memory(s: StateView, k: Seq<u8>) -> bool {
    &&& !s.memtable.entries.contains_key(k)
    &&& forall|i: int|
        0 <= i < s.imm_memtables.len() ==> !(#[trigger] s.imm_memtables[i]).entries.contains_key(k)
}

/// No table of L0 has the key.
pub open spec fn not_in_l0(s: StateView, k: Seq<u8>) -> bool {
    forall|i: int|
        0 <= i < s.l0_sstables.len() ==> !s.sstables[
        #[trigger] s.l0_sstables[i]].entries().contains_key(k)
}

/// **Then the latest immutable memtable decides** that has the key.
pub proof fn latest_memtable_decides(s: StateView, n: int, k: Seq<u8>)
    requires
        0 <= n < s.imm_memtables.len(),
        s.imm_memtables[n].entries.contains_key(k),
        !s.memtable.entries.contains_key(k),
        forall|i: int|
            0 <= i < n ==> !(#[trigger] s.imm_memtables[i]).entries.contains_key(k),
    ensures
        s.lookup(k) == if s.imm_memtables[n].entries[k].len() > 0 {
            Some(s.imm_memtables[n].entries[k])
        } else {
            None
        },
{
    let sources = s.sources();
    assert(sources[n + 1] == s.imm_memtables[n].entries);
    assert forall|j: int| 0 <= j < n + 1 implies !(#[trigger] sources[j]).contains_key(k) by {
        if j > 0 {
            assert(sources[j] == s.imm_memtables[j - 1].entries);
        } else {
            assert(sources[j] == s.memtable.entries);
        }
    }
    run::overlay_all_first(sources, n + 1, k);
}

/// Sources of memory without the key do not decide on it.
proof fn memory_passes(s: StateView, k: Seq<u8>, j: int)
    requires
        not_in_memory(s, k),
        0 <= j < s.memory_sources().len(),
    ensures
        !s.sources()[j].contains_key(k),
{
    assert(s.sources()[j] == s.memory_sources()[j]);
    if j > 0 {
        assert(s.memory_sources()[j] == s.imm_memtables[j - 1].entries);
    }
}

/// **Then the latest L0 table decides** that has the key.
pub proof fn latest_l0_table_decides(s: StateView, n: int, k: Seq<u8>)
    requires
        not_in_memory(s, k),
        0 <= n < s.l0_sstables.len(),
        s.sstables[s.l0_sstables[n]].entries().contains_key(k),
        forall|i: int|
            0 <= i < n ==> !s.sstables[#[trigger] s.l0_sstables[i]].entries().contains_key(k),
    ensures
        s.lookup(k) == if s.sstables[s.l0_sstables[n]].entries()[k].len() > 0 {
            Some(s.sstables[s.l0_sstables[n]].entries()[k])
        } else {
            None
        },
{
    let sources = s.sources();
    let m = s.imm_memtables.len() + 1;
    assert(sources[m + n] == s.sstables[s.l0_sstables[n]].entries());
    assert forall|j: int| 0 <= j < m + n implies !(#[trigger] sources[j]).contains_key(k) by {
        if j < m {
            memory_passes(s, k, j);
        } else {
            assert(sources[j] == s.sstables[s.l0_sstables[j - m]].entries());
        }
    }
    run::overlay_all_first(sources, m + n, k);
}

/// A table of the level has the key.
pub open spec fn level_has(s: StateView, level: int, k: Seq<u8>) -> bool {
    exists|i: int|
        0 <= i < s.levels[level].1.len() && s.sstables[
        #[trigger] s.levels[level].1[i]].entries().contains_key(k)
}

/// What a level holds is what its tables hold.
proof fn level_source(s: StateView, n: int, k: Seq<u8>)
    requires
        s.wf(),
        0 <= n < s.levels.len(),
    ensures
        s.level_sources()[n].contains_key(k) <==> level_has(s, n, k),
        forall|i: int|
            0 <= i < s.levels[n].1.len() && s.sstables[
            #[trigger] s.levels[n].1[i]].entries().contains_key(k) ==> s.level_sources()[n][k]
                == s.sstables[s.levels[n].1[i]].entries()[k],
{
    let ids = s.levels[n].1;
    let tables = s.tables(ids);
    assert(s.level_wf(ids));
    concat_iterator::level_holds_its_tables(tables, k);
    assert(s.level_sources()[n] == run::run_map(concat_iterator::level_run(tables)));
    assert forall|i: int| 0 <= i < ids.len() implies #[trigger] tables[i]
        == s.sstables[ids[i]] by {}
    if level_has(s, n, k) {
        let i = choose|i: int|
            0 <= i < ids.len() && s.sstables[#[trigger] ids[i]].entries().contains_key(k);
        assert(tables[i].entries().contains_key(k));
    }
    if s.level_sources()[n].contains_key(k) {
        let i = choose|i: int|
            0 <= i < tables.len() && (#[trigger] tables[i]).entries().contains_key(k);
        assert(s.sstables[ids[i]].entries().contains_key(k));
    }
    assert forall|i: int|
        0 <= i < ids.len() && s.sstables[#[trigger] ids[i]].entries().contains_key(
            k,
        ) implies s.level_sources()[n][k] == s.sstables[ids[i]].entries()[k] by {
        assert(tables[i].entries().contains_key(k));
    }
}

/// **Then the uppermost level decides** that has the key, by the table of it in which the key is.
pub proof fn uppermost_level_decides(s: StateView, n: int, i: int, k: Seq<u8>)
    requires
        s.wf(),
        not_in_memory(s, k),
        not_in_l0(s, k),
        0 <= n < s.levels.len(),
        0 <= i < s.levels[n].1.len(),
        s.sstables[s.levels[n].1[i]].entries().contains_key(k),
        forall|l: int| 0 <= l < n ==> !#[trigger] level_has(s, l, k),
    ensures
        s.lookup(k) == if s.sstables[s.levels[n].1[i]].entries()[k].len() > 0 {
            Some(s.sstables[s.levels[n].1[i]].entries()[k])
        } else {
            None
        },
{
    let sources = s.sources();
    let m = s.imm_memtables.len() + 1;
    let l0 = s.l0_sstables.len();
    level_source(s, n, k);
    assert(level_has(s, n, k));
    assert(sources[m + l0 + n] == s.level_sources()[n]);
    assert forall|j: int| 0 <= j < m + l0 + n implies !(#[trigger] sources[j]).contains_key(k) by {
        if j < m {
            memory_passes(s, k, j);
        } else if j < m + l0 {
            assert(sources[j] == s.sstables[s.l0_sstables[j - m]].entries());
        } else {
            assert(!level_has(s, j - m - l0, k));
            level_source(s, j - m - l0, k);
            assert(sources[j] == s.level_sources()[j - m - l0]);
        }
    }
    run::overlay_all_first(sources, m + l0 + n, k);
}

/// **A key that is nowhere is not found.**
pub proof fn missing_key_is_not_found(s: StateView, k: Seq<u8>)
    requires
        s.wf(),
        not_in_memory(s, k),
        not_in_l0(s, k),
        forall|l: int| 0 <= l < s.levels.len() ==> !#[trigger] level_has(s, l, k),
    ensures
        s.lookup(k) is None,
{
    let sources = s.sources();
    let m = s.imm_memtables.len() + 1;
    let l0 = s.l0_sstables.len();
    assert forall|j: int| 0 <= j < sources.len() implies !(#[trigger] sources[j]).contains_key(
        k,
    ) by {
        if j < m {
            memory_passes(s, k, j);
        } else if j < m + l0 {
            assert(sources[j] == s.sstables[s.l0_sstables[j - m]].entries());
        } else {
            assert(!level_has(s, j - m - l0, k));
            level_source(s, j - m - l0, k);
            assert(sources[j] == s.level_sources()[j - m - l0]);
        }
    }
    run::overlay_all_absent(sources, k);
}

/// **A new store is empty**, and its first memtable has the first id. Its levels are numbered from
/// one on: as many as the policy has, one without a policy, and none with tiers.
pub proof fn new_store_is_empty(options: LsmStorageOptions)
    ensures
        ({
            let e = recovery::new_engine(options);
            &&& e.state.memtable.entries == Entries::empty()
            &&& e.state.memtable.id == 0
            &&& e.state.memtable.size == 0
            &&& e.state.memtable.logged == options.enable_wal
            &&& e.state.imm_memtables.len() == 0
            &&& e.state.l0_sstables.len() == 0
            &&& e.state.sstables.dom() == Set::<usize>::empty()
            &&& e.next_sst_id == 1
            &&& e.options == options
            &&& e.tiered <==> options.compaction_options is Tiered
            &&& forall|i: int|
                0 <= i < e.state.levels.len() ==> (#[trigger] e.state.levels[i]).0 == i + 1
                    && e.state.levels[i].1.len() == 0
            &&& match options.compaction_options {
                CompactionOptions::Leveled(o) => e.state.levels.len() == o.max_levels,
                CompactionOptions::Simple(o) => e.state.levels.len() == o.max_levels,
                CompactionOptions::Tiered(_) => e.state.levels.len() == 0,
                CompactionOptions::NoCompaction => e.state.levels.len() == 1,
            }
        }),
{
}

/// **A record of the manifest does what the engine did**: a new memtable is pending from then on,
/// and a flush makes it a table in the place of the latest one.
pub proof fn record_replays_change(r: RecoveryView, id: usize)
    ensures
        ({
            let s = recovery::replayed(r, ManifestRecord::NewMemtable(id));
            &&& forall|x: usize| #[trigger]
                s.pending.contains(x) <==> r.pending.contains(x) || x == id
            &&& s.l0_sstables == r.l0_sstables
            &&& s.levels == r.levels
        }),
        ({
            let s = recovery::replayed(r, ManifestRecord::Flush(id));
            &&& forall|x: usize| #[trigger]
                s.pending.contains(x) <==> r.pending.contains(x) && x != id
            &&& if r.options.compaction_options is Tiered {
                s.l0_sstables == r.l0_sstables && s.levels.len() == r.levels.len() + 1
                    && s.levels[0].0 == id && s.levels[0].1.len() == 1 && s.levels[0].1[0] == id
                    && s.levels.drop_first() == r.levels
            } else {
                s.levels == r.levels && s.l0_sstables.len() == r.l0_sstables.len() + 1
                    && s.l0_sstables[0] == id && s.l0_sstables.drop_first() == r.l0_sstables
            }
        }),
{
    let s = recovery::replayed(r, ManifestRecord::Flush(id));
    if r.options.compaction_options is Tiered {
        assert(s.levels.drop_first() =~= r.levels);
    } else {
        assert(s.l0_sstables.drop_first() =~= r.l0_sstables);
    }
}

/// **A compaction's record replaces the layout** by the one it carries, leaves what is pending
/// alone, and counts the ids of the tables that were written.
pub proof fn compaction_record_replaces_layout(
    r: RecoveryView,
    l0_sstables: Seq<usize>,
    levels: Seq<(usize, Seq<usize>)>,
    output: Seq<usize>,
)
    ensures
        ({
            let s = recovery::compacted(r, l0_sstables, levels, output);
            &&& s.l0_sstables == l0_sstables
            &&& s.levels == levels
            &&& s.pending == r.pending
            &&& s.options == r.options
            &&& r.next_sst_id <= s.next_sst_id
            &&& forall|i: int| 0 <= i < output.len() ==> #[trigger] output[i] <= s.next_sst_id
            &&& s.next_sst_id == r.next_sst_id || output.contains(s.next_sst_id)
        }),
{
    recovery_laws::largest_bounds(output);
}

/// **Before any record a manifest says of a store that it is empty**, with the levels of a new one.
pub proof fn nothing_recorded_is_empty(options: LsmStorageOptions)
    ensures
        recovery::unread(options).pending == Set::<usize>::empty(),
        recovery::unread(options).l0_sstables.len() == 0,
        recovery::unread(options).levels == recovery::new_engine(options).state.levels,
        recovery::unread(options).next_sst_id == 1,
        recovery::unread(options).options == options,
{
}

/// **A store that is opened again has the layout that its manifest leaves**: the same L0, levels
/// with the same numbers and tables, and the policy of its options.
pub proof fn opened_store_has_recorded_layout(
    r: RecoveryView,
    tables: Seq<TableView>,
    logs: Seq<(usize, Run<Seq<u8>>)>,
)
    ensures
        ({
            let f = recovery::recovered(r, tables, logs);
            &&& f.options == r.options
            &&& f.tiered <==> r.options.compaction_options is Tiered
            &&& f.state.l0_sstables == r.l0_sstables
            &&& f.state.levels.len() == r.levels.len()
            &&& forall|n: int|
                0 <= n < r.levels.len() ==> (#[trigger] f.state.levels[n]).0 == r.levels[n].0
                    && f.state.levels[n].1.to_multiset() == r.levels[n].1.to_multiset()
            &&& !(r.options.compaction_options is Leveled) ==> f.state.levels == r.levels
        }),
{
    let f = recovery::recovered(r, tables, logs);
    assert forall|n: int| 0 <= n < r.levels.len() implies (#[trigger] f.state.levels[n]).0
        == r.levels[n].0 && f.state.levels[n].1.to_multiset() == r.levels[n].1.to_multiset() by {
        table_order::sorting_orders(r.levels[n].1, recovery::opened(tables));
    }
}

/// The id stands in a level.
pub open spec fn in_level(levels: Seq<(usize, Seq<usize>)>, id: usize) -> bool {
    exists|n: int| 0 <= n < levels.len() && (#[trigger] levels[n]).1.contains(id)
}

proof fn level_ids_are_listed(levels: Seq<(usize, Seq<usize>)>, id: usize)
    ensures
        recovery::level_table_ids(levels).contains(id) <==> in_level(levels, id),
    decreases levels.len(),
{
    if levels.len() > 0 {
        let rest = levels.drop_last();
        let last = levels.len() - 1;
        let before = recovery::level_table_ids(rest);
        let all = recovery::level_table_ids(levels);
        level_ids_are_listed(rest, id);
        if all.contains(id) {
            let i = choose|i: int| 0 <= i < all.len() && all[i] == id;
            if i < before.len() {
                assert(before[i] == id);
                let n = choose|n: int| 0 <= n < rest.len() && (#[trigger] rest[n]).1.contains(id);
                assert(levels[n].1.contains(id));
            } else {
                assert(levels[last].1[i - before.len()] == id);
                assert(levels[last].1.contains(id));
            }
        }
        if in_level(levels, id) {
            let n = choose|n: int| 0 <= n < levels.len() && (#[trigger] levels[n]).1.contains(id);
            let j = choose|j: int| 0 <= j < levels[n].1.len() && levels[n].1[j] == id;
            let i = recovery::level_table_listed(levels, n, j);
            assert(all[i] == id);
        }
    }
}

/// **The tables that have to be opened are those of L0 and of the levels**, and no others.
pub proof fn tables_to_open_are_the_layout(r: RecoveryView, id: usize)
    ensures
        r.table_ids().contains(id) <==> r.l0_sstables.contains(id) || in_level(r.levels, id),
{
    let listed = recovery::level_table_ids(r.levels);
    level_ids_are_listed(r.levels, id);
    if r.table_ids().contains(id) {
        let i = choose|i: int| 0 <= i < r.table_ids().len() && r.table_ids()[i] == id;
        if i < r.l0_sstables.len() {
            assert(r.l0_sstables[i] == id);
        } else {
            assert(listed[i - r.l0_sstables.len()] == id);
        }
    }
    if r.l0_sstables.contains(id) {
        let i = choose|i: int| 0 <= i < r.l0_sstables.len() && r.l0_sstables[i] == id;
        assert(r.table_ids()[i] == id);
    }
    if listed.contains(id) {
        let i = choose|i: int| 0 <= i < listed.len() && listed[i] == id;
        assert(r.table_ids()[r.l0_sstables.len() + i] == id);
    }
}

/// The largest id that the records name, but at least one.
proof fn history_leaves_a_named_id(options: LsmStorageOptions, records: Seq<HistoryRecord>)
    ensures
        ({
            let id = recovery_laws::replayed_history(
                recovery::unread(options),
                records,
            ).next_sst_id;
            id == 1 || exists|i: int|
                0 <= i < records.len() && #[trigger] recovery_laws::names_id(records[i], id)
        }),
    decreases records.len(),
{
    if records.len() > 0 {
        let rest = records.drop_last();
        let last = records.len() - 1;
        let before = recovery_laws::replayed_history(recovery::unread(options), rest);
        let after = recovery_laws::replayed_history(recovery::unread(options), records);
        history_leaves_a_named_id(options, rest);
        if after.next_sst_id == before.next_sst_id {
            if before.next_sst_id != 1 {
                let i = choose|i: int|
                    0 <= i < rest.len() && #[trigger] recovery_laws::names_id(
                        rest[i],
                        before.next_sst_id,
                    );
                assert(recovery_laws::names_id(records[i], after.next_sst_id));
            }
        } else {
            if let HistoryRecord::Compaction { output, .. } = records[last] {
                recovery_laws::largest_bounds(output);
                assert(output.len() > 0);
            }
            assert(recovery_laws::names_id(records[last], after.next_sst_id));
        }
    }
}

/// **A store that is opened again goes on with the next ids**: its memtable gets the one after the
/// largest that the manifest names, or after one if it names none as large, and the next free id is
/// one more. What the store reads from its logs counts for nothing towards the size of a memtable.
pub proof fn opened_store_goes_on_with_ids(
    options: LsmStorageOptions,
    records: Seq<HistoryRecord>,
    tables: Seq<TableView>,
    logs: Seq<(usize, Run<Seq<u8>>)>,
)
    requires
        recovery_laws::replayed_history(recovery::unread(options), records).next_sst_id + 2
            <= usize::MAX,
    ensures
        ({
            let f = recovery::recovered(
                recovery_laws::replayed_history(recovery::unread(options), records),
                tables,
                logs,
            );
            let id = f.state.memtable.id - 1;
            &&& id == 1 || exists|i: int|
                0 <= i < records.len() && #[trigger] recovery_laws::names_id(
                    records[i],
                    id as usize,
                )
            &&& f.next_sst_id == f.state.memtable.id + 1
            &&& f.state.memtable.entries == Entries::empty()
            &&& f.state.memtable.size == 0
            &&& f.state.memtable.logged == f.options.enable_wal
            &&& !f.options.enable_wal ==> f.state.imm_memtables.len() == 0
            &&& forall|i: int|
                0 <= i < f.state.imm_memtables.len() ==> (#[trigger] f.state.imm_memtables[i]).size
                    == 0 && f.state.imm_memtables[i].logged
        }),
{
    let r = recovery_laws::replayed_history(recovery::unread(options), records);
    let f = recovery::recovered(r, tables, logs);
    history_leaves_a_named_id(options, records);
    logged_memtables_have_no_size(logs);
    assert((f.state.memtable.id - 1) as usize == r.next_sst_id);
}

proof fn logged_memtables_have_no_size(logs: Seq<(usize, Run<Seq<u8>>)>)
    ensures
        forall|i: int|
            0 <= i < recovery::logged_memtables(logs).len() ==> (
            #[trigger] recovery::logged_memtables(logs)[i]).size == 0
                && recovery::logged_memtables(logs)[i].logged,
    decreases logs.len(),
{
    if logs.len() > 0 {
        let earlier = recovery::logged_memtables(logs.drop_last());
        let all = recovery::logged_memtables(logs);
        logged_memtables_have_no_size(logs.drop_last());
        assert forall|i: int| 0 <= i < all.len() implies (#[trigger] all[i]).size == 0
            && all[i].logged by {
            if all != earlier && i > 0 {
                assert(all[i] == earlier[i - 1]);
            }
        }
    }
}

} // verus!
