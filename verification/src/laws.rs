//! What holds of the store as a whole.

use vstd::prelude::*;
use std::ops::Bound;
use crate::bound;
use crate::iterators::concat_iterator;
use crate::lsm_iterator;
use crate::lsm_storage::actions::{ActionView, ManifestRecord};
use crate::lsm_storage::model;
use crate::lsm_storage::model::StateView;
use crate::lsm_storage::steps;
use crate::lsm_storage::steps::{CloseStepView, EngineView, ForceFlushStepView, WriteStepView};
use crate::mem_table;
use crate::mem_table::MemView;
use crate::run;
use crate::run::{Entries, Run};
use crate::table;
use crate::table::TableView;

verus! {

/// **A write is seen at once**: it becomes the entry of its key, and no other key is touched.
pub proof fn put_writes_entry(e: EngineView, k: Seq<u8>, v: Seq<u8>)
    ensures
        steps::put(e, k, v).contents() == e.contents().insert(k, v),
        v.len() > 0 ==> steps::put(e, k, v).state.lookup(k) == Some(v),
        v.len() == 0 ==> steps::put(e, k, v).state.lookup(k) is None,
        forall|j: Seq<u8>|
            j != k ==> #[trigger] steps::put(e, k, v).state.lookup(j) == e.state.lookup(j),
{
    let f = steps::put(e, k, v);
    let before = e.state.sources();
    let after = f.state.sources();
    assert(after.drop_first() =~= before.drop_first()) by {
        same_tables(e, f);
    }
    assert(after[0] =~= before[0].insert(k, v));
    assert(f.contents() =~= e.contents().insert(k, v));
}

/// Sources on disk do not depend on the memtables.
proof fn same_tables(e: EngineView, f: EngineView)
    requires
        f.state.l0_sstables == e.state.l0_sstables,
        f.state.levels == e.state.levels,
        f.state.sstables == e.state.sstables,
    ensures
        f.state.l0_sources() == e.state.l0_sources(),
        f.state.level_sources() == e.state.level_sources(),
{
    assert(f.state.l0_sources() =~= e.state.l0_sources());
    assert forall|i: int| 0 <= i < e.state.levels.len() implies (
    #[trigger] f.state.level_sources()[i]) == e.state.level_sources()[i] by {
        assert(f.state.tables(e.state.levels[i].1) =~= e.state.tables(e.state.levels[i].1));
    }
    assert(f.state.level_sources() =~= e.state.level_sources());
}

/// **A freeze changes no data**: an empty source comes on top, and reads see what they saw.
pub proof fn freeze_keeps_contents(e: EngineView, m: MemView)
    requires
        m.entries == Entries::empty(),
    ensures
        steps::frozen(e, m).state.sources() == seq![Entries::empty()] + e.state.sources(),
        steps::frozen(e, m).contents() == e.contents(),
{
    let f = steps::frozen(e, m);
    same_tables(e, f);
    let after = f.state.sources();
    assert(after =~= seq![Entries::empty()] + e.state.sources());
    assert(after.drop_first() =~= e.state.sources());
    assert(f.contents() =~= e.contents());
}

/// The table into which a memtable is flushed is sound and holds what the memtable held.
pub proof fn flushed_table_holds_memtable(m: MemView)
    requires
        model::memtable_wf(m),
        m.entries != Entries::empty(),
    ensures
        steps::table_of(m).wf(),
        steps::table_of(m).entries() == m.entries,
{
    run::listing_exists(m.entries);
    run::run_map_empty(run::listing(m.entries));
    table::table_on_wf(m.id, run::listing(m.entries));
}

/// **A flush moves data from one place to another**: every source holds what it held, in the same
/// order of priority, and so reads see what they saw. Newer memtables stay above the table.
pub proof fn flush_keeps_sources(e: EngineView)
    requires
        e.wf(),
        e.state.imm_memtables.len() > 0,
        e.state.imm_memtables.last().entries != Entries::empty(),
    ensures
        steps::installed(
            e,
            steps::table_of(e.state.imm_memtables.last()),
        ).state.sources() == e.state.sources(),
        steps::installed(e, steps::table_of(e.state.imm_memtables.last())).contents()
            == e.contents(),
        steps::installed(e, steps::table_of(e.state.imm_memtables.last())).wf(),
{
    let m = e.state.imm_memtables.last();
    let t = steps::table_of(m);
    let f = steps::installed(e, t);
    assert(e.state.imm_memtables[e.state.imm_memtables.len() - 1] == m);
    flushed_table_holds_memtable(m);
    steps::new_table_is_alone(e, t);
    steps::tables_kept(e, f);
    assert(f.state.memory_sources() =~= e.state.memory_sources().drop_last());
    assert(e.state.memory_sources().last() == m.entries);
    if e.tiered {
        assert(f.state.l0_sources() =~= Seq::empty());
        assert(e.state.l0_sources() =~= Seq::empty());
        assert(f.state.tables(seq![t.id]) =~= seq![t]);
        assert(concat_iterator::level_run(seq![t]) =~= t.run) by {
            reveal_with_fuel(concat_iterator::level_run, 2);
        }
        assert(f.state.level_sources() =~= seq![t.entries()] + e.state.level_sources());
    } else {
        assert(f.state.level_sources() =~= e.state.level_sources());
        assert(f.state.l0_sources() =~= seq![t.entries()] + e.state.l0_sources());
    }
    assert(f.state.sources() =~= e.state.sources());
    steps::installed_keeps_wf(e, t);
}

/// Entries written over a map one after the other.
pub open spec fn apply_all(m: Entries, entries: Seq<(Seq<u8>, Seq<u8>)>) -> Entries
    decreases entries.len(),
{
    if entries.len() == 0 {
        m
    } else {
        apply_all(m.insert(entries[0].0, entries[0].1), entries.drop_first())
    }
}

/// The engine after the rest of a batch, when every action succeeds and no one else writes.
pub open spec fn write_rest(
    e: EngineView,
    entries: Seq<(Seq<u8>, Seq<u8>)>,
    step: WriteStepView,
) -> EngineView
    decreases
            entries.len() - match step {
                WriteStepView::Begin => 0,
                WriteStepView::Put(i) => i,
                WriteStepView::TryFreeze(i, _) => i,
                WriteStepView::Publish(i, _) => i,
                WriteStepView::Done => entries.len() as int,
            },
            match step {
                WriteStepView::Begin => 3int,
                WriteStepView::Put(_) => 2,
                WriteStepView::TryFreeze(_, _) => 1,
                WriteStepView::Publish(_, _) => 0,
                WriteStepView::Done => 0,
            },
{
    let (f, next) = steps::write_step(e, entries, step);
    match step {
        WriteStepView::Begin => write_rest(f, entries, next),
        WriteStepView::Put(i) => if i < entries.len() {
            write_rest(f, entries, next)
        } else {
            f
        },
        WriteStepView::TryFreeze(i, _) => if i < entries.len() {
            write_rest(f, entries, next)
        } else {
            f
        },
        WriteStepView::Publish(i, _) => if i < entries.len() {
            write_rest(f, entries, next)
        } else {
            f
        },
        WriteStepView::Done => f,
    }
}

/// The engine after a whole batch, when every action succeeds and no one else writes.
pub open spec fn write_all(e: EngineView, entries: Seq<(Seq<u8>, Seq<u8>)>) -> EngineView {
    write_rest(e, entries, WriteStepView::Begin)
}

/// How many records of a batch are still to be put.
spec fn records_left(entries: Seq<(Seq<u8>, Seq<u8>)>, step: WriteStepView) -> Seq<
    (Seq<u8>, Seq<u8>),
> {
    match step {
        WriteStepView::Begin => entries,
        WriteStepView::Put(i) => entries.skip(i),
        WriteStepView::TryFreeze(i, _) => entries.skip(i + 1),
        WriteStepView::Publish(i, _) => entries.skip(i + 1),
        WriteStepView::Done => Seq::empty(),
    }
}

/// The step is one that a batch goes through.
spec fn in_batch(entries: Seq<(Seq<u8>, Seq<u8>)>, step: WriteStepView) -> bool {
    match step {
        WriteStepView::Begin => true,
        WriteStepView::Put(i) => 0 <= i <= entries.len(),
        WriteStepView::TryFreeze(i, _) => 0 <= i < entries.len(),
        WriteStepView::Publish(i, m) => 0 <= i < entries.len() && m.entries == Entries::empty(),
        WriteStepView::Done => true,
    }
}

proof fn write_rest_contents(
    e: EngineView,
    entries: Seq<(Seq<u8>, Seq<u8>)>,
    step: WriteStepView,
)
    requires
        in_batch(entries, step),
    ensures
        write_rest(e, entries, step).contents() == apply_all(
            e.contents(),
            records_left(entries, step),
        ),
    decreases
            entries.len() - match step {
                WriteStepView::Begin => 0,
                WriteStepView::Put(i) => i,
                WriteStepView::TryFreeze(i, _) => i,
                WriteStepView::Publish(i, _) => i,
                WriteStepView::Done => entries.len() as int,
            },
            match step {
                WriteStepView::Begin => 3int,
                WriteStepView::Put(_) => 2,
                WriteStepView::TryFreeze(_, _) => 1,
                WriteStepView::Publish(_, _) => 0,
                WriteStepView::Done => 0,
            },
{
    let (f, next) = steps::write_step(e, entries, step);
    match step {
        WriteStepView::Begin => {
            assert(entries.skip(0) =~= entries);
            write_rest_contents(f, entries, next);
        },
        WriteStepView::Put(i) => {
            if i < entries.len() {
                put_writes_entry(e, entries[i].0, entries[i].1);
                assert(entries.skip(i).drop_first() =~= entries.skip(i + 1));
                write_rest_contents(f, entries, next);
            }
        },
        WriteStepView::TryFreeze(i, n) => {
            assert(f.contents() == e.contents());
            write_rest_contents(f, entries, next);
        },
        WriteStepView::Publish(i, m) => {
            freeze_keeps_contents(e, m);
            write_rest_contents(f, entries, next);
        },
        WriteStepView::Done => {},
    }
}

/// **A batch writes its records in order**, whatever freezes come between them.
pub proof fn batch_writes_in_order(e: EngineView, entries: Seq<(Seq<u8>, Seq<u8>)>)
    ensures
        write_all(e, entries).contents() == apply_all(e.contents(), entries),
{
    write_rest_contents(e, entries, WriteStepView::Begin);
}

/// **What was put is read back**, and no other key is touched.
pub proof fn get_after_put(e: EngineView, k: Seq<u8>, v: Seq<u8>)
    requires
        v.len() > 0,
    ensures
        write_all(e, seq![(k, v)]).state.lookup(k) == Some(v),
        forall|j: Seq<u8>|
            j != k ==> #[trigger] write_all(e, seq![(k, v)]).state.lookup(j) == e.state.lookup(j),
{
    batch_writes_in_order(e, seq![(k, v)]);
    reveal_with_fuel(apply_all, 2);
}

/// A write is held in memory, above all tables.
pub proof fn put_stays_in_memory(e: EngineView, k: Seq<u8>, v: Seq<u8>)
    ensures
        ({
            let held = run::overlay_all(write_all(e, seq![(k, v)]).state.memory_sources());
            held.contains_key(k) && held[k] == v
        }),
{
    let f = steps::put(e, k, v);
    let g = write_all(e, seq![(k, v)]);
    assert(run::overlay_all(f.state.memory_sources()).contains_key(k)) by {
        assert(f.state.memory_sources()[0].contains_key(k));
    }
    reveal_with_fuel(write_rest, 6);
    if steps::is_full(f, f.state.memtable.size) {
        assert(g == steps::frozen(steps::id_taken(f), steps::replacement(f)));
        assert(g.state.memory_sources().drop_first() =~= f.state.memory_sources());
    } else {
        assert(g == f);
    }
}

/// **What was deleted is gone**, whatever older sources hold, and no other key is touched. The key
/// is kept in memory with an empty value.
pub proof fn get_after_delete(e: EngineView, k: Seq<u8>)
    ensures
        write_all(e, seq![(k, Seq::empty())]).state.lookup(k) is None,
        ({
            let held = run::overlay_all(
                write_all(e, seq![(k, Seq::empty())]).state.memory_sources(),
            );
            held.contains_key(k) && held[k].len() == 0
        }),
        forall|j: Seq<u8>|
            j != k ==> #[trigger] write_all(e, seq![(k, Seq::empty())]).state.lookup(j)
                == e.state.lookup(j),
{
    batch_writes_in_order(e, seq![(k, Seq::empty())]);
    put_stays_in_memory(e, k, Seq::empty());
    reveal_with_fuel(apply_all, 2);
}

/// The key is written by a record.
pub open spec fn is_written(entries: Seq<(Seq<u8>, Seq<u8>)>, k: Seq<u8>) -> bool {
    exists|i: int| 0 <= i < entries.len() && (#[trigger] entries[i]).0 == k
}

proof fn apply_all_last(m: Entries, entries: Seq<(Seq<u8>, Seq<u8>)>, k: Seq<u8>)
    ensures
        !is_written(entries, k) ==> apply_all(m, entries).contains_key(k) == m.contains_key(k),
        !is_written(entries, k) && m.contains_key(k) ==> apply_all(m, entries)[k] == m[k],
        forall|i: int|
            0 <= i < entries.len() && (#[trigger] entries[i]).0 == k && !is_written(
                entries.skip(i + 1),
                k,
            ) ==> apply_all(m, entries).contains_key(k) && apply_all(m, entries)[k]
                == entries[i].1,
    decreases entries.len(),
{
    if entries.len() > 0 {
        let rest = entries.drop_first();
        let n = m.insert(entries[0].0, entries[0].1);
        apply_all_last(n, rest, k);
        if is_written(rest, k) {
            let j = choose|j: int| 0 <= j < rest.len() && (#[trigger] rest[j]).0 == k;
            assert(entries[j + 1].0 == k);
        }
        assert(entries.skip(1) =~= rest);
        assert forall|i: int|
            0 <= i < entries.len() && (#[trigger] entries[i]).0 == k && !is_written(
                entries.skip(i + 1),
                k,
            ) implies apply_all(m, entries).contains_key(k) && apply_all(m, entries)[k]
            == entries[i].1 by {
            if i > 0 {
                assert(rest[i - 1] == entries[i]);
                assert(rest.skip(i) =~= entries.skip(i + 1));
            }
        }
    }
}

/// Where a key reads alike, it reads alike after the same entries.
pub proof fn same_reads_after(
    a: Entries,
    b: Entries,
    entries: Seq<(Seq<u8>, Seq<u8>)>,
    k: Seq<u8>,
)
    requires
        model::live_value(a, k) == model::live_value(b, k),
    ensures
        model::live_value(apply_all(a, entries), k) == model::live_value(
            apply_all(b, entries),
            k,
        ),
    decreases entries.len(),
{
    if entries.len() > 0 {
        let (j, v) = entries[0];
        same_reads_after(a.insert(j, v), b.insert(j, v), entries.drop_first(), k);
    }
}

/// **The last record of a key decides** what a batch leaves of it; keys that the batch does not
/// name keep what they had, and a batch without records changes nothing.
pub proof fn last_record_decides(e: EngineView, entries: Seq<(Seq<u8>, Seq<u8>)>)
    ensures
        forall|i: int|
            0 <= i < entries.len() && !is_written(
                entries.skip(i + 1),
                (#[trigger] entries[i]).0,
            ) ==> write_all(e, entries).state.lookup(entries[i].0) == if entries[i].1.len() > 0 {
                Some(entries[i].1)
            } else {
                None
            },
        forall|k: Seq<u8>|
            !is_written(entries, k) ==> #[trigger] write_all(e, entries).state.lookup(k)
                == e.state.lookup(k),
        entries.len() == 0 ==> write_all(e, entries) == e,
{
    batch_writes_in_order(e, entries);
    reveal_with_fuel(write_rest, 2);
    assert forall|i: int|
        0 <= i < entries.len() && !is_written(
            entries.skip(i + 1),
            (#[trigger] entries[i]).0,
        ) implies write_all(e, entries).state.lookup(entries[i].0) == if entries[i].1.len() > 0 {
        Some(entries[i].1)
    } else {
        None
    } by {
        apply_all_last(e.contents(), entries, entries[i].0);
    }
    assert forall|k: Seq<u8>| !is_written(entries, k) implies #[trigger] write_all(
        e,
        entries,
    ).state.lookup(k) == e.state.lookup(k) by {
        apply_all_last(e.contents(), entries, k);
    }
}

/// A step with its record counted from one record earlier.
spec fn one_back(step: WriteStepView) -> WriteStepView {
    match step {
        WriteStepView::Begin => WriteStepView::Begin,
        WriteStepView::Put(i) => WriteStepView::Put(i - 1),
        WriteStepView::TryFreeze(i, n) => WriteStepView::TryFreeze(i - 1, n),
        WriteStepView::Publish(i, m) => WriteStepView::Publish(i - 1, m),
        WriteStepView::Done => WriteStepView::Done,
    }
}

proof fn write_rest_one_back(
    e: EngineView,
    entries: Seq<(Seq<u8>, Seq<u8>)>,
    step: WriteStepView,
)
    requires
        entries.len() > 0,
        match step {
            WriteStepView::Begin => false,
            WriteStepView::Put(i) => i >= 1,
            WriteStepView::TryFreeze(i, _) => i >= 1,
            WriteStepView::Publish(i, _) => i >= 1,
            WriteStepView::Done => true,
        },
    ensures
        write_rest(e, entries, step) == write_rest(e, entries.drop_first(), one_back(step)),
    decreases
            entries.len() - match step {
                WriteStepView::Begin => 0,
                WriteStepView::Put(i) => i,
                WriteStepView::TryFreeze(i, _) => i,
                WriteStepView::Publish(i, _) => i,
                WriteStepView::Done => entries.len() as int,
            },
            match step {
                WriteStepView::Begin => 3int,
                WriteStepView::Put(_) => 2,
                WriteStepView::TryFreeze(_, _) => 1,
                WriteStepView::Publish(_, _) => 0,
                WriteStepView::Done => 0,
            },
{
    let (f, next) = steps::write_step(e, entries, step);
    let rest = entries.drop_first();
    match step {
        WriteStepView::Begin => {},
        WriteStepView::Put(i) => {
            if i < entries.len() {
                assert(rest[i - 1] == entries[i]);
                write_rest_one_back(f, entries, next);
            }
        },
        WriteStepView::TryFreeze(i, n) => {
            if i < entries.len() {
                write_rest_one_back(f, entries, next);
            }
        },
        WriteStepView::Publish(i, m) => {
            if i < entries.len() {
                write_rest_one_back(f, entries, next);
            }
        },
        WriteStepView::Done => {},
    }
}

/// **A batch is its records written one by one**: it is not a transaction, and the engine it
/// leaves is the one that single writes leave.
pub proof fn batch_is_single_writes(e: EngineView, entries: Seq<(Seq<u8>, Seq<u8>)>)
    requires
        entries.len() > 0,
    ensures
        write_all(e, entries) == write_all(write_all(e, seq![entries[0]]), entries.drop_first()),
{
    let one = seq![entries[0]];
    let f = steps::put(e, entries[0].0, entries[0].1);
    let step = WriteStepView::TryFreeze(0, f.state.memtable.size);
    let (g, next) = steps::write_step(f, entries, step);
    reveal_with_fuel(write_rest, 6);
    assert(steps::write_step(f, one, step) == (g, next));
    match next {
        WriteStepView::Publish(_, m) => {
            let h = steps::frozen(g, m);
            assert(write_all(e, one) == h);
            assert(write_all(e, entries) == write_rest(h, entries, WriteStepView::Put(1)));
            write_rest_one_back(h, entries, WriteStepView::Put(1));
        },
        _ => {
            assert(write_all(e, one) == g);
            assert(write_all(e, entries) == write_rest(g, entries, WriteStepView::Put(1)));
            write_rest_one_back(g, entries, WriteStepView::Put(1));
        },
    }
}

/// Whole batches keep the engine sound, as long as there are ids for the freezes.
pub proof fn batch_keeps_wf(e: EngineView, entries: Seq<(Seq<u8>, Seq<u8>)>)
    requires
        e.wf(),
        e.next_sst_id + entries.len() <= usize::MAX,
        forall|i: int| 0 <= i < entries.len() ==> (#[trigger] entries[i]).0.len() > 0,
    ensures
        write_all(e, entries).wf(),
        write_all(e, entries).next_sst_id <= e.next_sst_id + entries.len(),
    decreases entries.len(),
{
    if entries.len() == 0 {
        reveal_with_fuel(write_rest, 2);
    } else {
        let one = seq![entries[0]];
        let f = steps::put(e, entries[0].0, entries[0].1);
        steps::put_keeps_wf(e, entries[0].0, entries[0].1);
        let g = write_all(e, one);
        assert(g.wf() && g.next_sst_id <= e.next_sst_id + 1) by {
            reveal_with_fuel(write_rest, 6);
            if steps::is_full(f, f.state.memtable.size) {
                steps::replacement_is_free(f);
                steps::frozen_keeps_wf(steps::id_taken(f), steps::replacement(f));
                assert(g == steps::frozen(steps::id_taken(f), steps::replacement(f)));
            } else {
                assert(g == f);
            }
        }
        batch_is_single_writes(e, entries);
        let rest = entries.drop_first();
        assert forall|i: int| 0 <= i < rest.len() implies (#[trigger] rest[i]).0.len() > 0 by {
            assert(rest[i] == entries[i + 1]);
        }
        batch_keeps_wf(g, rest);
    }
}

/// What one record leaves: the entry in the memtable, and a new memtable on top if it got too
/// large.
pub proof fn one_record(e: EngineView, k: Seq<u8>, v: Seq<u8>)
    ensures
        ({
            let f = steps::put(e, k, v);
            write_all(e, seq![(k, v)]) == if steps::is_full(f, f.state.memtable.size) {
                steps::frozen(steps::id_taken(f), steps::replacement(f))
            } else {
                f
            }
        }),
{
    reveal_with_fuel(write_rest, 6);
}

/// **A memtable that reaches the target size is frozen at once**: after a batch the memtable is
/// below the target size again.
pub proof fn batch_keeps_below_target(e: EngineView, entries: Seq<(Seq<u8>, Seq<u8>)>)
    requires
        0 < e.options.target_sst_size,
        e.state.memtable.size < e.options.target_sst_size,
    ensures
        write_all(e, entries).state.memtable.size < e.options.target_sst_size,
        write_all(e, entries).options == e.options,
    decreases entries.len(),
{
    if entries.len() == 0 {
        reveal_with_fuel(write_rest, 2);
    } else {
        let g = write_all(e, seq![entries[0]]);
        one_record(e, entries[0].0, entries[0].1);
        assert(seq![entries[0]] =~= seq![(entries[0].0, entries[0].1)]);
        batch_is_single_writes(e, entries);
        batch_keeps_below_target(g, entries.drop_first());
    }
}

/// **Freezes between the records of a batch** put the filled memtable in front of the immutable
/// ones.
pub proof fn full_memtable_moves_to_front(e: EngineView, k: Seq<u8>, v: Seq<u8>)
    requires
        steps::put(e, k, v).state.memtable.size >= e.options.target_sst_size,
    ensures
        write_all(e, seq![(k, v)]).state.imm_memtables == seq![
            mem_table::put_entry(e.state.memtable, k, v),
        ] + e.state.imm_memtables,
        write_all(e, seq![(k, v)]).state.memtable == mem_table::fresh(
            e.next_sst_id,
            e.options.enable_wal,
        ),
{
    one_record(e, k, v);
}

/// A store that can be read holds finitely many keys.
pub proof fn contents_finite(s: StateView)
    requires
        s.wf(),
    ensures
        s.contents().dom().finite(),
{
    let sources = s.sources();
    let (m, l) = (s.memory_sources().len(), s.l0_sources().len());
    assert forall|i: int| 0 <= i < sources.len() implies (#[trigger] sources[i]).dom().finite() by {
        if i < m {
            if i > 0 {
                assert(model::memtable_wf(s.imm_memtables[i - 1]));
            }
        } else if i < m + l {
            let id = s.l0_sstables[i - m];
            assert(s.has_table(id));
            assert(sources[i] == s.l0_sources()[i - m]);
            run::run_map_finite(s.sstables[id].run);
        } else {
            let j = i - m - l;
            let ids = s.levels[j].1;
            assert(s.level_wf(ids));
            assert(sources[i] == s.level_sources()[j]);
            concat_iterator::level_run_bounds(s.tables(ids));
            run::run_map_finite(concat_iterator::level_run(s.tables(ids)));
        }
    }
    run::overlay_all_finite(sources);
}

/// What a scan lists.
pub open spec fn scanned(
    s: StateView,
    lower: Bound<Seq<u8>>,
    upper: Bound<Seq<u8>>,
) -> Run<Seq<u8>> {
    run::listing(lsm_iterator::live_range(s.contents(), lower, upper))
}

/// **A scan and point reads agree**: a scan lists, in order and each once, exactly the keys
/// between the bounds for which a point read returns a value, with that value.
pub proof fn scan_lists_what_get_returns(
    s: StateView,
    lower: Bound<Seq<u8>>,
    upper: Bound<Seq<u8>>,
)
    requires
        s.wf(),
    ensures
        run::sorted(scanned(s, lower, upper)),
        forall|k: Seq<u8>, v: Seq<u8>| #[trigger]
            scanned(s, lower, upper).contains((k, v)) <==> bound::within(lower, upper, k)
                && s.lookup(k) == Some(v),
{
    let m = lsm_iterator::live_range(s.contents(), lower, upper);
    let listed = scanned(s, lower, upper);
    contents_finite(s);
    assert(m.dom().subset_of(s.contents().dom()));
    vstd::set_lib::lemma_set_subset_finite(s.contents().dom(), m.dom());
    run::listing_exists(m);
    assert forall|k: Seq<u8>, v: Seq<u8>| #[trigger] listed.contains((k, v)) <==> bound::within(
        lower,
        upper,
        k,
    ) && s.lookup(k) == Some(v) by {
        if listed.contains((k, v)) {
            let i = choose|i: int| 0 <= i < listed.len() && listed[i] == (k, v);
            run::run_map_at(listed, i);
            assert(m.contains_key(k));
        }
        if bound::within(lower, upper, k) && s.lookup(k) == Some(v) {
            assert(m.contains_key(k));
            let i = run::run_map_find(listed, k);
            assert(listed[i] == (k, v));
        }
    }
}

/// The engine after the rest of a close, when every action succeeds.
pub open spec fn close_rest(e: EngineView, step: CloseStepView) -> EngineView
    decreases
            match step {
                CloseStepView::Begin => 3int,
                CloseStepView::Save => 2,
                _ => 1,
            },
            e.state.imm_memtables.len(),
            match step {
                CloseStepView::Drain => 1int,
                _ => 0,
            },
{
    let (f, next) = steps::close_step(e, step);
    match step {
        CloseStepView::Begin => close_rest(f, next),
        CloseStepView::Save => if next is Drain {
            close_rest(f, next)
        } else {
            f
        },
        CloseStepView::Drain => if next is Install {
            close_rest(f, next)
        } else {
            f
        },
        CloseStepView::Install(_) => if e.state.imm_memtables.len() > 0 {
            close_rest(f, next)
        } else {
            f
        },
        CloseStepView::Done => f,
    }
}

/// Every immutable memtable holds something.
pub open spec fn nothing_idle(e: EngineView) -> bool {
    forall|i: int|
        0 <= i < e.state.imm_memtables.len() ==> (#[trigger] e.state.imm_memtables[i]).entries
            != Entries::empty()
}

/// **No idle memtable arises** from freezing one that holds something.
pub proof fn nothing_idle_through_freeze(e: EngineView, m: MemView)
    requires
        nothing_idle(e),
        e.state.memtable.entries != Entries::empty(),
    ensures
        nothing_idle(steps::frozen(e, m)),
{
    let f = steps::frozen(e, m);
    assert forall|i: int| 0 <= i < f.state.imm_memtables.len() implies (
    #[trigger] f.state.imm_memtables[i]).entries != Entries::empty() by {
        if i > 0 {
            assert(f.state.imm_memtables[i] == e.state.imm_memtables[i - 1]);
        }
    }
}

/// **No idle memtable arises** from a flush.
pub proof fn nothing_idle_through_flush(e: EngineView, t: TableView)
    requires
        nothing_idle(e),
        e.state.imm_memtables.len() > 0,
    ensures
        nothing_idle(steps::installed(e, t)),
{
    let f = steps::installed(e, t);
    assert forall|i: int| 0 <= i < f.state.imm_memtables.len() implies (
    #[trigger] f.state.imm_memtables[i]).entries != Entries::empty() by {
        assert(f.state.imm_memtables[i] == e.state.imm_memtables[i]);
    }
}

/// **No idle memtable arises** from a batch: a memtable is frozen after a record was put into it.
pub proof fn nothing_idle_through_batch(e: EngineView, entries: Seq<(Seq<u8>, Seq<u8>)>)
    requires
        nothing_idle(e),
    ensures
        nothing_idle(write_all(e, entries)),
    decreases entries.len(),
{
    if entries.len() == 0 {
        reveal_with_fuel(write_rest, 2);
    } else {
        let (k, v) = entries[0];
        let f = steps::put(e, k, v);
        one_record(e, k, v);
        assert(seq![entries[0]] =~= seq![(k, v)]);
        assert(f.state.memtable.entries.contains_key(k));
        nothing_idle_through_freeze(steps::id_taken(f), steps::replacement(f));
        batch_is_single_writes(e, entries);
        nothing_idle_through_batch(write_all(e, seq![entries[0]]), entries.drop_first());
    }
}

/// **No idle memtable arises** from a forced flush.
pub proof fn nothing_idle_through_force_flush(e: EngineView)
    requires
        nothing_idle(e),
    ensures
        nothing_idle(force_flush_all(e)),
{
    let taken = steps::id_taken(e);
    let m = steps::replacement(e);
    let f = if e.state.memtable.entries == Entries::empty() {
        e
    } else {
        steps::frozen(taken, m)
    };
    if e.state.memtable.entries != Entries::empty() {
        nothing_idle_through_freeze(taken, m);
    }
    if f.state.imm_memtables.len() > 0 {
        nothing_idle_through_flush(f, steps::table_of(f.state.imm_memtables.last()));
    }
}

/// Draining flushes all immutable memtables and changes no data.
proof fn drain_empties_memory(e: EngineView)
    requires
        e.wf(),
        nothing_idle(e),
    ensures
        ({
            let f = close_rest(e, CloseStepView::Drain);
            &&& f.wf()
            &&& f.state.imm_memtables.len() == 0
            &&& f.state.memtable == e.state.memtable
            &&& f.options == e.options
            &&& f.contents() == e.contents()
        }),
    decreases e.state.imm_memtables.len(),
{
    if e.state.imm_memtables.len() > 0 {
        let n = e.state.imm_memtables.len() - 1;
        let t = steps::table_of(e.state.imm_memtables.last());
        let f = steps::installed(e, t);
        assert(e.state.imm_memtables[n].entries != Entries::empty());
        flush_keeps_sources(e);
        nothing_idle_through_flush(e, t);
        drain_empties_memory(f);
        reveal_with_fuel(close_rest, 3);
    }
}

/// **Closing loses nothing.** Without logs, all data ends up in tables: memory is empty, and reads
/// see what they saw. With logs, memory stays as it is.
pub proof fn close_keeps_contents(e: EngineView)
    requires
        e.wf(),
        nothing_idle(e),
        e.next_sst_id < usize::MAX,
    ensures
        ({
            let f = close_rest(e, CloseStepView::Begin);
            &&& f.wf()
            &&& f.options == e.options
            &&& f.contents() == e.contents()
            &&& e.options.enable_wal ==> f == e
            &&& !e.options.enable_wal ==> f.state.imm_memtables.len() == 0
                && f.state.memtable.entries == Entries::empty()
        }),
{
    reveal_with_fuel(close_rest, 3);
    if !e.options.enable_wal {
        if e.state.memtable.entries == Entries::empty() {
            drain_empties_memory(e);
        } else {
            let m = mem_table::fresh(e.next_sst_id, false);
            let f = steps::frozen(steps::id_taken(e), m);
            steps::replacement_is_free(e);
            steps::frozen_keeps_wf(steps::id_taken(e), m);
            freeze_keeps_contents(steps::id_taken(e), m);
            nothing_idle_through_freeze(steps::id_taken(e), m);
            drain_empties_memory(f);
        }
    }
}

/// The engine after a forced flush, when every action succeeds.
pub open spec fn force_flush_all(e: EngineView) -> EngineView {
    let frozen = if e.state.memtable.entries == Entries::empty() {
        e
    } else {
        steps::frozen(steps::id_taken(e), steps::replacement(e))
    };
    if steps::is_drained(frozen) {
        frozen
    } else {
        steps::installed(frozen, steps::table_of(frozen.state.imm_memtables.last()))
    }
}

/// The steps of a forced flush lead there.
pub proof fn force_flush_steps(e: EngineView)
    ensures
        ({
            let (e1, s1) = steps::force_flush_step(e, ForceFlushStepView::Begin);
            let (e2, s2) = steps::force_flush_step(e1, s1);
            let (e3, s3) = steps::force_flush_step(e2, s2);
            let (e4, s4) = steps::force_flush_step(e3, s3);
            e4 == force_flush_all(e) && s4 is Done
        }),
{
}

/// **A forced flush changes no data**, and leaves the current memtable empty.
pub proof fn force_flush_keeps_contents(e: EngineView)
    requires
        e.wf(),
        nothing_idle(e),
        e.next_sst_id < usize::MAX,
    ensures
        force_flush_all(e).wf(),
        force_flush_all(e).contents() == e.contents(),
        force_flush_all(e).state.memtable.entries == Entries::empty(),
{
    let m = steps::replacement(e);
    let f = if e.state.memtable.entries == Entries::empty() {
        e
    } else {
        steps::frozen(steps::id_taken(e), m)
    };
    if e.state.memtable.entries != Entries::empty() {
        steps::replacement_is_free(e);
        steps::frozen_keeps_wf(steps::id_taken(e), m);
        freeze_keeps_contents(steps::id_taken(e), m);
    }
    if f.state.imm_memtables.len() > 0 {
        let n = f.state.imm_memtables.len() - 1;
        if f != e && n > 0 {
            assert(f.state.imm_memtables[n] == e.state.imm_memtables[n - 1]);
        }
        assert(f.state.imm_memtables[n].entries != Entries::empty());
        flush_keeps_sources(f);
    }
}

/// **The order in which a flush becomes durable**: the table is on disk before the flush is
/// recorded, and the flush is recorded before the memtable's log is removed.
pub proof fn flush_is_durable_in_order(e: EngineView, t: TableView)
    ensures
        ({
            let all = steps::flush_actions(t) + steps::install_actions(e, t);
            &&& all[0] == ActionView::WriteSst(t)
            &&& all[1] == ActionView::SyncDir
            &&& all[2] == ActionView::AddRecord(ManifestRecord::Flush(t.id))
            &&& all.last() == ActionView::SyncDir
            &&& forall|i: int|
                0 <= i < all.len() && #[trigger] all[i] is RemoveWal ==> i > 2 && all[i]
                    == ActionView::RemoveWal(t.id) && e.options.enable_wal
        }),
{
}

/// **The order in which a freeze becomes durable**: before a memtable takes over, its log exists
/// and is named in the directory, and then the manifest knows of it.
pub proof fn freeze_is_durable_in_order(e: EngineView)
    ensures
        ({
            let all = steps::freeze_actions(e);
            &&& all.last() == ActionView::AddRecord(ManifestRecord::NewMemtable(e.next_sst_id))
            &&& e.options.enable_wal ==> all[0] == ActionView::CreateWal(e.next_sst_id) && all[1]
                == ActionView::SyncDir && all.len() == 3
            &&& !e.options.enable_wal ==> all.len() == 1
        }),
{
}

} // verus!
