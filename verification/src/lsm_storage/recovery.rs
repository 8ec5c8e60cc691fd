//! Opening a store: a new one, or one whose manifest is replayed.

use vstd::prelude::*;
use std::collections::{BTreeSet, HashMap};
use std::sync::Arc;
use bytes::Bytes;
use crate::compact;
use crate::compact::CompactionController;
use crate::iterators::concat_iterator;
use crate::key::{bytes_less, KeyModel};
use crate::lsm_storage;
use crate::lsm_storage::model;
use crate::lsm_storage::model::StateView;
use crate::lsm_storage::actions;
use crate::lsm_storage::actions::{Action, ActionView, ManifestRecord};
use crate::lsm_storage::steps::EngineView;
use crate::lsm_storage::table_order;
use crate::lsm_storage::{LsmStorageInner, LsmStorageOptions, LsmStorageState};
use crate::mem_table;
use crate::mem_table::{MemTable, MemView};
use crate::run;
use crate::run::{Entries, Run};
use crate::skip_map_spec;
use crate::table::{SsTable, TableView};

verus! {

/// What the records of a manifest leave: the memtables that were not flushed, the layout of the
/// tables, and the largest id seen.
#[verifier::ext_equal]
pub struct RecoveryView {
    pub pending: Set<usize>,
    pub l0_sstables: Seq<usize>,
    pub levels: Seq<(usize, Seq<usize>)>,
    pub next_sst_id: usize,
    pub options: LsmStorageOptions,
}

pub open spec fn larger(a: usize, b: usize) -> usize {
    if a < b {
        b
    } else {
        a
    }
}

/// The largest of some ids, or zero.
pub open spec fn largest(ids: Seq<usize>) -> usize
    decreases ids.len(),
{
    if ids.len() == 0 {
        0
    } else {
        larger(largest(ids.drop_last()), ids.last())
    }
}

/// Before any record.
pub open spec fn unread(options: LsmStorageOptions) -> RecoveryView {
    RecoveryView {
        pending: Set::empty(),
        l0_sstables: Seq::empty(),
        levels: model::empty_state(options.compaction_options).levels,
        next_sst_id: 1,
        options,
    }
}

/// After one more record: a new memtable is pending, and a flush turns a pending memtable into a
/// table.
pub open spec fn replayed(r: RecoveryView, record: ManifestRecord) -> RecoveryView {
    match record {
        ManifestRecord::NewMemtable(id) => RecoveryView {
            pending: r.pending.insert(id),
            next_sst_id: larger(r.next_sst_id, id),
            ..r
        },
        ManifestRecord::Flush(id) => {
            let s = RecoveryView {
                pending: r.pending.remove(id),
                next_sst_id: larger(r.next_sst_id, id),
                ..r
            };
            if r.options.compaction_options is Tiered {
                RecoveryView { levels: seq![(id, seq![id])] + r.levels, ..s }
            } else {
                RecoveryView { l0_sstables: seq![id] + r.l0_sstables, ..s }
            }
        },
    }
}

/// After a compaction's record: the layout is the one that the policy makes of its result.
pub open spec fn compacted(
    r: RecoveryView,
    l0_sstables: Seq<usize>,
    levels: Seq<(usize, Seq<usize>)>,
    output: Seq<usize>,
) -> RecoveryView {
    RecoveryView {
        l0_sstables,
        levels,
        next_sst_id: larger(r.next_sst_id, largest(output)),
        ..r
    }
}

/// The ids of the tables in levels, level after level.
pub open spec fn level_table_ids(levels: Seq<(usize, Seq<usize>)>) -> Seq<usize>
    decreases levels.len(),
{
    if levels.len() == 0 {
        Seq::empty()
    } else {
        level_table_ids(levels.drop_last()) + levels.last().1
    }
}

impl RecoveryView {
    /// The tables that have to be opened: those of L0, then those of the levels.
    pub open spec fn table_ids(self) -> Seq<usize> {
        self.l0_sstables + level_table_ids(self.levels)
    }
}

/// Increasing ids that make up a set.
pub open spec fn ascending(ids: Seq<usize>, set: Set<usize>) -> bool {
    &&& forall|i: int, j: int| 0 <= i < j < ids.len() ==> ids[i] < ids[j]
    &&& forall|id: usize| ids.contains(id) <==> set.contains(id)
}

/// Replays the records of a manifest.
pub struct Recovery {
    memtables: BTreeSet<usize>,
    l0_sstables: Vec<usize>,
    levels: Vec<(usize, Vec<usize>)>,
    next_sst_id: usize,
    options: LsmStorageOptions,
}

impl View for Recovery {
    type V = RecoveryView;

    closed spec fn view(&self) -> RecoveryView {
        RecoveryView {
            pending: self.memtables@,
            l0_sstables: self.l0_sstables@,
            levels: lsm_storage::level_ids(self.levels@),
            next_sst_id: self.next_sst_id,
            options: self.options,
        }
    }
}

fn larger_of(a: usize, b: usize) -> (r: usize)
    ensures
        r == larger(a, b),
{
    if a < b {
        b
    } else {
        a
    }
}

impl Recovery {
    pub fn new(options: &LsmStorageOptions) -> (r: Self)
        ensures
            r@ == unread(*options),
    {
        let state = LsmStorageState::create(options);
        Recovery {
            memtables: BTreeSet::new(),
            l0_sstables: state.l0_sstables,
            levels: state.levels,
            next_sst_id: 1,
            options: *options,
        }
    }

    /// Takes a record into account. A flush names a memtable that is pending.
    pub fn replay(&mut self, record: ManifestRecord)
        requires
            record matches ManifestRecord::Flush(id) ==> old(self)@.pending.contains(id),
        ensures
            final(self)@ == replayed(old(self)@, record),
    {
        broadcast use vstd::std_specs::btree::group_btree_axioms;
        broadcast use vstd::laws_cmp::group_laws_cmp;

        match record {
            ManifestRecord::Flush(sst_id) => {
                self.memtables.remove(&sst_id);
                let controller = CompactionController::new(&self.options.compaction_options);
                if controller.flush_to_l0() {
                    self.l0_sstables.insert(0, sst_id);
                    assert(self@.l0_sstables =~= seq![sst_id] + old(self)@.l0_sstables);
                } else {
                    let tier: Vec<usize> = vec![sst_id];
                    assert(tier@ =~= seq![sst_id]);
                    self.levels.insert(0, (sst_id, tier));
                    assert(self@.levels =~= seq![(sst_id, seq![sst_id])] + old(self)@.levels);
                }
                self.next_sst_id = larger_of(self.next_sst_id, sst_id);
            },
            ManifestRecord::NewMemtable(x) => {
                self.next_sst_id = larger_of(self.next_sst_id, x);
                self.memtables.insert(x);
            },
        }
        assert(self@ =~= replayed(old(self)@, record));
    }

    /// Takes a compaction's record into account, with the layout that the policy makes of the
    /// present one and the compaction's result.
    pub fn replay_compaction(
        &mut self,
        l0_sstables: Vec<usize>,
        levels: Vec<(usize, Vec<usize>)>,
        output: &Vec<usize>,
    )
        ensures
            final(self)@ == compacted(
                old(self)@,
                l0_sstables@,
                lsm_storage::level_ids(levels@),
                output@,
            ),
    {
        let mut top: usize = 0;
        let mut i: usize = 0;
        while i < output.len()
            invariant
                i <= output@.len(),
                top == largest(output@.take(i as int)),
            decreases output@.len() - i,
        {
            assert(output@.take(i + 1).drop_last() =~= output@.take(i as int));
            top = larger_of(top, output[i]);
            i = i + 1;
        }
        assert(output@.take(i as int) =~= output@);
        self.l0_sstables = l0_sstables;
        self.levels = levels;
        self.next_sst_id = larger_of(self.next_sst_id, top);
    }

    pub fn l0_sstables(&self) -> (r: &Vec<usize>)
        ensures
            r@ == self@.l0_sstables,
    {
        &self.l0_sstables
    }

    pub fn levels(&self) -> (r: &Vec<(usize, Vec<usize>)>)
        ensures
            lsm_storage::level_ids(r@) == self@.levels,
    {
        &self.levels
    }

    /// The largest id seen so far.
    pub fn next_sst_id(&self) -> (r: usize)
        ensures
            r == self@.next_sst_id,
    {
        self.next_sst_id
    }

    pub fn is_pending(&self, id: usize) -> (r: bool)
        ensures
            r == self@.pending.contains(id),
    {
        broadcast use vstd::std_specs::btree::group_btree_axioms;
        broadcast use vstd::laws_cmp::group_laws_cmp;

        self.memtables.contains(&id)
    }

    /// The memtables that were not flushed, in the order in which they were created.
    pub fn pending(&self) -> (r: Vec<usize>)
        ensures
            ascending(r@, self@.pending),
    {
        broadcast use vstd::std_specs::btree::group_btree_axioms;
        broadcast use vstd::laws_cmp::group_laws_cmp;

        let ghost all = vstd::std_specs::iter::IteratorSpec::remaining(
            &vstd::std_specs::btree::spec_btree_keys_iter(&self.memtables),
        );
        let mut ids: Vec<usize> = Vec::new();
        for id in it: self.memtables.iter()
            invariant
                it.seq() == all,
                ids@.len() == it.index(),
                forall|j: int| 0 <= j < ids@.len() ==> ids@[j] == *all[j],
        {
            ids.push(*id);
        }
        proof {
            assert(ids@ =~= all.unref());
            assert(all.unref().to_set() == self.memtables@);
            assert(vstd::laws_cmp::obeys_cmp::<usize>());
            assert(vstd::laws_cmp::obeys_cmp::<&usize>());
            assert(vstd::std_specs::btree::increasing_seq(all));
            assert forall|i: int, j: int| 0 <= i < j < ids@.len() implies ids@[i] < ids@[j] by {
                assert(vstd::std_specs::cmp::OrdSpec::cmp_spec(&all[i], &all[j]) is Less);
            }
            assert forall|id: usize| ids@.contains(id) <==> self@.pending.contains(id) by {
                assert(ids@.to_set().contains(id) <==> ids@.contains(id));
            }
        }
        ids
    }

    /// The tables that have to be opened.
    pub fn table_ids(&self) -> (r: Vec<usize>)
        ensures
            r@ == self@.table_ids(),
    {
        let mut ids: Vec<usize> = Vec::new();
        let mut i: usize = 0;
        while i < self.l0_sstables.len()
            invariant
                i <= self.l0_sstables@.len(),
                ids@ == self.l0_sstables@.take(i as int),
            decreases self.l0_sstables@.len() - i,
        {
            ids.push(self.l0_sstables[i]);
            assert(ids@ =~= self.l0_sstables@.take(i + 1));
            i = i + 1;
        }
        assert(ids@ =~= self@.l0_sstables);
        let mut n: usize = 0;
        assert(self@.levels.take(0) =~= Seq::empty());
        assert(ids@ =~= self@.l0_sstables + level_table_ids(self@.levels.take(0)));
        while n < self.levels.len()
            invariant
                n <= self.levels@.len(),
                ids@ == self@.l0_sstables + level_table_ids(self@.levels.take(n as int)),
            decreases self.levels@.len() - n,
        {
            let level = &self.levels[n].1;
            let ghost before = ids@;
            let mut i: usize = 0;
            while i < level.len()
                invariant
                    i <= level@.len(),
                    ids@ == before + level@.take(i as int),
                decreases level@.len() - i,
            {
                ids.push(level[i]);
                assert(ids@ =~= before + level@.take(i + 1));
                i = i + 1;
            }
            proof {
                let done = self@.levels.take(n + 1);
                assert(done.drop_last() =~= self@.levels.take(n as int));
                assert(level@.take(i as int) =~= level@);
                assert(ids@ =~= self@.l0_sstables + level_table_ids(done));
            }
            n = n + 1;
        }
        assert(self@.levels.take(n as int) =~= self@.levels);
        ids
    }
}

/// Tables by their ids.
pub open spec fn opened(tables: Seq<TableView>) -> Map<usize, TableView>
    decreases tables.len(),
{
    if tables.len() == 0 {
        Map::empty()
    } else {
        opened(tables.drop_last()).insert(tables.last().id, tables.last())
    }
}

/// Every table can be found by its id.
pub proof fn opened_has_all(tables: Seq<TableView>)
    requires
        forall|i: int| 0 <= i < tables.len() ==> (#[trigger] tables[i]).wf(),
    ensures
        forall|i: int|
            0 <= i < tables.len() ==> opened(tables).contains_key((#[trigger] tables[i]).id),
        forall|id: usize| #[trigger]
            opened(tables).contains_key(id) ==> opened(tables)[id].wf() && tables.contains(
                opened(tables)[id],
            ) && opened(tables)[id].id == id,
    decreases tables.len(),
{
    if tables.len() > 0 {
        let rest = tables.drop_last();
        assert forall|i: int| 0 <= i < rest.len() implies (#[trigger] rest[i]).wf() by {
            assert(rest[i] == tables[i]);
        }
        opened_has_all(rest);
        assert(tables[tables.len() - 1] == tables.last());
        assert forall|i: int| 0 <= i < tables.len() implies opened(tables).contains_key(
            (#[trigger] tables[i]).id,
        ) by {
            if i < rest.len() {
                assert(rest[i] == tables[i]);
            }
        }
        assert forall|id: usize| #[trigger] opened(tables).contains_key(id) implies opened(
            tables,
        )[id].wf() && tables.contains(opened(tables)[id]) && opened(tables)[id].id == id by {
            if id != tables.last().id {
                let t = opened(rest)[id];
                assert(rest.contains(t));
                let j = choose|j: int| 0 <= j < rest.len() && rest[j] == t;
                assert(tables[j] == t);
            }
        }
    }
}

/// Each level in the order of the first keys of its tables.
pub open spec fn sorted_levels(
    levels: Seq<(usize, Seq<usize>)>,
    tables: Map<usize, TableView>,
) -> Seq<(usize, Seq<usize>)> {
    levels.map_values(|l: (usize, Seq<usize>)| (l.0, table_order::sort_by_first(l.1, tables)))
}

/// The memtable that a log leaves.
pub open spec fn logged_memtable(id: usize, records: Run<Seq<u8>>) -> MemView {
    MemView { entries: mem_table::replay(records), ..mem_table::fresh(id, true) }
}

/// The memtables that logs leave, those with something in them, the latest first.
pub open spec fn logged_memtables(logs: Seq<(usize, Run<Seq<u8>>)>) -> Seq<MemView>
    decreases logs.len(),
{
    if logs.len() == 0 {
        Seq::empty()
    } else {
        let m = logged_memtable(logs.last().0, logs.last().1);
        let earlier = logged_memtables(logs.drop_last());
        if m.entries == Entries::empty() {
            earlier
        } else {
            seq![m] + earlier
        }
    }
}

/// The engine on a store that was found: its tables, the memtables that their logs leave, and a new
/// memtable on top.
pub open spec fn recovered(
    r: RecoveryView,
    tables: Seq<TableView>,
    logs: Seq<(usize, Run<Seq<u8>>)>,
) -> EngineView {
    let id = (r.next_sst_id + 1) as usize;
    EngineView {
        state: StateView {
            memtable: mem_table::fresh(id, r.options.enable_wal),
            imm_memtables: if r.options.enable_wal {
                logged_memtables(logs)
            } else {
                Seq::empty()
            },
            l0_sstables: r.l0_sstables,
            levels: if r.options.compaction_options is Leveled {
                sorted_levels(r.levels, opened(tables))
            } else {
                r.levels
            },
            sstables: opened(tables),
        },
        next_sst_id: (r.next_sst_id + 2) as usize,
        options: r.options,
        tiered: r.options.compaction_options is Tiered,
    }
}

/// What has to be done before a store that was found can be used.
pub open spec fn recovery_actions(r: RecoveryView) -> Seq<ActionView> {
    let id = (r.next_sst_id + 1) as usize;
    let rest = seq![ActionView::AddRecord(ManifestRecord::NewMemtable(id)), ActionView::SyncDir];
    if r.options.enable_wal {
        seq![ActionView::CreateWal(id)] + rest
    } else {
        rest
    }
}

/// The engine on a new store.
pub open spec fn new_engine(options: LsmStorageOptions) -> EngineView {
    EngineView {
        state: StateView {
            memtable: mem_table::fresh(0, options.enable_wal),
            ..model::empty_state(options.compaction_options)
        },
        next_sst_id: 1,
        options,
        tiered: options.compaction_options is Tiered,
    }
}

pub proof fn new_engine_is_sound(options: LsmStorageOptions)
    ensures
        new_engine(options).wf(),
{
    let s = new_engine(options).state;
    assert forall|i: int| 0 <= i < s.levels.len() implies s.level_wf(
        (#[trigger] s.levels[i]).1,
    ) by {
        assert(s.levels[i].1 =~= Seq::empty());
    }
}

/// A new store holds nothing.
pub proof fn new_engine_is_empty(options: LsmStorageOptions)
    ensures
        new_engine(options).contents() == Entries::empty(),
{
    let s = new_engine(options).state;
    let sources = s.sources();
    assert forall|i: int| 0 <= i < sources.len() implies #[trigger] sources[i]
        == Entries::empty() by {
        if i > 0 {
            let ids = s.levels[i - 1].1;
            assert(ids =~= Seq::empty());
            assert(s.tables(ids) =~= Seq::empty());
            assert(sources[i] == s.level_sources()[i - 1]);
            run::run_map_empty(concat_iterator::level_run(s.tables(ids)));
        }
    }
    assert forall|k: Seq<u8>| !(#[trigger] new_engine(options).contents().contains_key(k)) by {
        run::overlay_all_absent(sources, k);
    }
    assert(new_engine(options).contents() =~= Entries::empty());
}

/// What has to be done before a new store can be used.
pub open spec fn creation_actions(options: LsmStorageOptions) -> Seq<ActionView> {
    let rest = seq![
        ActionView::CreateManifest,
        ActionView::AddRecord(ManifestRecord::NewMemtable(0)),
        ActionView::SyncDir,
    ];
    if options.enable_wal {
        seq![ActionView::CreateWal(0)] + rest
    } else {
        rest
    }
}

/// The records of logs, with the ids of the logs.
pub open spec fn log_views(logs: Seq<(usize, Vec<(Bytes, Bytes)>)>) -> Seq<
    (usize, Run<Seq<u8>>),
> {
    logs.map_values(|l: (usize, Vec<(Bytes, Bytes)>)| (l.0, skip_map_spec::run_of(l.1@)))
}

/// The tables are those that the manifest names, and so are the logs.
pub open spec fn all_found(
    r: RecoveryView,
    tables: Seq<TableView>,
    logs: Seq<(usize, Run<Seq<u8>>)>,
) -> bool {
    let ids = r.table_ids();
    &&& tables.len() == ids.len()
    &&& forall|i: int|
        0 <= i < tables.len() ==> (#[trigger] tables[i]).wf() && tables[i].id == ids[i]
    &&& r.options.enable_wal ==> ascending(
        logs.map_values(|l: (usize, Run<Seq<u8>>)| l.0),
        r.pending,
    )
}

/// Sorts the tables of a level by their first keys.
fn sort_level(ids: &Vec<usize>, sstables: &HashMap<usize, Arc<SsTable>>) -> (r: Vec<usize>)
    requires
        forall|i: int|
            0 <= i < ids@.len() ==> sstables@.contains_key(#[trigger] ids@[i])
                && sstables@[ids@[i]].wf(),
    ensures
        r@ == table_order::sort_by_first(ids@, sstables@.map_values(|t: Arc<SsTable>| t@)),
{
    broadcast use vstd::std_specs::hash::group_hash_axioms;

    let ghost tables = sstables@.map_values(|t: Arc<SsTable>| t@);
    let mut sorted: Vec<usize> = Vec::new();
    assert(ids@.take(0) =~= Seq::empty());
    let mut i: usize = 0;
    while i < ids.len()
        invariant
            i <= ids@.len(),
            tables == sstables@.map_values(|t: Arc<SsTable>| t@),
            forall|i: int|
                0 <= i < ids@.len() ==> sstables@.contains_key(#[trigger] ids@[i])
                    && sstables@[ids@[i]].wf(),
            table_order::is_sorting(sorted@, ids@.take(i as int), tables),
            forall|j: int|
                0 <= j < sorted@.len() ==> sstables@.contains_key(#[trigger] sorted@[j])
                    && sstables@[sorted@[j]].wf(),
        decreases ids@.len() - i,
    {
        let id: usize = ids[i];
        let table = sstables.get(&id).unwrap();
        let ghost before = sorted@;
        let mut p: usize = sorted.len();
        while p > 0 && bytes_less(
            table.first_key().raw_ref(),
            sstables.get(&sorted[p - 1]).unwrap().first_key().raw_ref(),
        )
            invariant
                p <= sorted@.len(),
                sorted@ == before,
                sstables@.contains_key(id),
                sstables@[id] == table,
                table.wf(),
                tables == sstables@.map_values(|t: Arc<SsTable>| t@),
                forall|j: int|
                    0 <= j < sorted@.len() ==> sstables@.contains_key(#[trigger] sorted@[j])
                        && sstables@[sorted@[j]].wf(),
                forall|j: int|
                    p <= j < before.len() ==> tables[id].first().lt(
                        tables[#[trigger] before[j]].first(),
                    ),
            ensures
                p > 0 ==> !tables[id].first().lt(tables[before[p - 1]].first()),
            decreases p,
        {
            p = p - 1;
        }
        sorted.insert(p, id);
        proof {
            table_order::insert_sorts(before, p as int, id, ids@.take(i as int), tables);
            assert(ids@.take(i + 1) =~= ids@.take(i as int).push(id));
            assert forall|j: int| 0 <= j < sorted@.len() implies sstables@.contains_key(
                #[trigger] sorted@[j],
            ) && sstables@[sorted@[j]].wf() by {
                if j < p {
                    assert(sorted@[j] == before[j]);
                } else if j > p {
                    assert(sorted@[j] == before[j - 1]);
                }
            }
        }
        i = i + 1;
    }
    assert(ids@.take(i as int) =~= ids@);
    proof {
        table_order::sorting_is(sorted@, ids@, tables);
    }
    sorted
}

impl LsmStorageInner {
    /// Starts the engine on a new store.
    pub fn open_new(options: LsmStorageOptions) -> (r: (Self, Vec<Action>))
        ensures
            r.0@ == new_engine(options),
            r.0.compaction_controller == compact::controller_for(options.compaction_options),
            r.0.compaction_filters@.len() == 0,
            actions::action_views(r.1@) == creation_actions(options),
            r.0@.wf(),
    {
        let mut state = LsmStorageState::create(&options);
        let mut actions: Vec<Action> = Vec::new();
        if options.enable_wal {
            let id: usize = state.memtable.id();
            actions.push(Action::CreateWal(id));
            state.memtable = MemTable::create_with_wal(id);
        }
        actions.push(Action::CreateManifest);
        actions.push(Action::AddRecord(ManifestRecord::NewMemtable(state.memtable.id())));
        actions.push(Action::SyncDir);
        let engine = LsmStorageInner {
            state,
            next_sst_id: 1,
            options,
            compaction_controller: CompactionController::new(&options.compaction_options),
            compaction_filters: Vec::new(),
        };
        proof {
            assert(engine@ =~= new_engine(options));
            assert(actions::action_views(actions@) =~= creation_actions(options));
            new_engine_is_sound(options);
        }
        (engine, actions)
    }

    /// Starts the engine on a store that was found: with the records of its manifest, the tables
    /// that they name, and the logs of the memtables that were not flushed. A file that no record
    /// names is not part of the store.
    pub fn open_existing(
        recovery: Recovery,
        sstables: Vec<Arc<SsTable>>,
        logs: Vec<(usize, Vec<(Bytes, Bytes)>)>,
    ) -> (r: (Self, Vec<Action>))
        requires
            recovery@.next_sst_id + 2 <= usize::MAX,
            all_found(recovery@, concat_iterator::table_views(sstables@), log_views(logs@)),
        ensures
            r.0@ == recovered(
                recovery@,
                concat_iterator::table_views(sstables@),
                log_views(logs@),
            ),
            r.0.compaction_controller == compact::controller_for(
                recovery@.options.compaction_options,
            ),
            r.0.compaction_filters@.len() == 0,
            actions::action_views(r.1@) == recovery_actions(recovery@),
            r.0@.state.parts_wf(),
    {
        let ghost tables = concat_iterator::table_views(sstables@);
        let options = recovery.options;
        let map = Self::tables_by_id(&sstables);
        proof {
            assert forall|i: int| 0 <= i < tables.len() implies (#[trigger] tables[i]).wf() by {}
            opened_has_all(tables);
            assert forall|n: int, j: int|
                0 <= n < recovery@.levels.len() && 0 <= j < recovery@.levels[n].1.len() implies (
            #[trigger] map@.contains_key(recovery@.levels[n].1[j]))
                && map@[recovery@.levels[n].1[j]].wf() by {
                let at = level_table_listed(recovery@.levels, n, j);
                let x = recovery@.l0_sstables.len() + at;
                assert(recovery@.table_ids()[x as int] == recovery@.levels[n].1[j]);
                assert(tables[x as int].id == recovery@.levels[n].1[j]);
                let id = recovery@.levels[n].1[j];
                assert(opened(tables).contains_key(id));
                assert(opened(tables)[id] == map@[id]@);
            }
        }
        let controller = CompactionController::new(&options.compaction_options);
        let next_sst_id: usize = recovery.next_sst_id + 1;
        // Sort SSTs on each level (only for leveled compaction)
        let levels = match controller {
            CompactionController::Leveled(_) => Self::sort_levels(recovery.levels, &map),
            _ => recovery.levels,
        };
        let mut actions: Vec<Action> = Vec::new();
        let mut imm_memtables: Vec<Arc<MemTable>> = Vec::new();
        let memtable = if options.enable_wal {
            imm_memtables = Self::memtables_from_logs(&logs);
            actions.push(Action::CreateWal(next_sst_id));
            MemTable::create_with_wal(next_sst_id)
        } else {
            MemTable::create(next_sst_id)
        };
        actions.push(Action::AddRecord(ManifestRecord::NewMemtable(next_sst_id)));
        actions.push(Action::SyncDir);
        let engine = LsmStorageInner {
            state: LsmStorageState {
                memtable,
                imm_memtables,
                l0_sstables: recovery.l0_sstables,
                levels,
                sstables: map,
            },
            next_sst_id: next_sst_id + 1,
            options,
            compaction_controller: controller,
            compaction_filters: Vec::new(),
        };
        proof {
            assert(actions::action_views(actions@) =~= recovery_actions(recovery@));
            assert(engine@ =~= recovered(recovery@, tables, log_views(logs@)));
            recovered_parts_are_sound(recovery@, tables, log_views(logs@));
        }
        (engine, actions)
    }

    fn tables_by_id(sstables: &Vec<Arc<SsTable>>) -> (r: HashMap<usize, Arc<SsTable>>)
        ensures
            r@.map_values(|t: Arc<SsTable>| t@) == opened(
                concat_iterator::table_views(sstables@),
            ),
    {
        broadcast use vstd::std_specs::hash::group_hash_axioms;

        let ghost tables = concat_iterator::table_views(sstables@);
        let mut map: HashMap<usize, Arc<SsTable>> = HashMap::new();
        assert(map@.map_values(|t: Arc<SsTable>| t@) =~= opened(tables.take(0)));
        let mut i: usize = 0;
        while i < sstables.len()
            invariant
                i <= sstables@.len(),
                tables == concat_iterator::table_views(sstables@),
                map@.map_values(|t: Arc<SsTable>| t@) == opened(tables.take(i as int)),
            decreases sstables@.len() - i,
        {
            let ghost before = map@;
            let id: usize = sstables[i].sst_id();
            map.insert(id, Arc::clone(&sstables[i]));
            proof {
                let done = tables.take(i + 1);
                assert(done.drop_last() =~= tables.take(i as int));
                assert(map@.map_values(|t: Arc<SsTable>| t@) =~= before.map_values(
                    |t: Arc<SsTable>| t@,
                ).insert(done.last().id, done.last()));
            }
            i = i + 1;
        }
        assert(tables.take(i as int) =~= tables);
        map
    }

    fn sort_levels(
        levels: Vec<(usize, Vec<usize>)>,
        sstables: &HashMap<usize, Arc<SsTable>>,
    ) -> (r: Vec<(usize, Vec<usize>)>)
        requires
            forall|n: int, j: int|
                0 <= n < levels@.len() && 0 <= j < lsm_storage::level_ids(levels@)[n].1.len() ==> (
                #[trigger] sstables@.contains_key(lsm_storage::level_ids(levels@)[n].1[j]))
                    && sstables@[lsm_storage::level_ids(levels@)[n].1[j]].wf(),
        ensures
            lsm_storage::level_ids(r@) == sorted_levels(
                lsm_storage::level_ids(levels@),
                sstables@.map_values(|t: Arc<SsTable>| t@),
            ),
    {
        let ghost all = lsm_storage::level_ids(levels@);
        let ghost tables = sstables@.map_values(|t: Arc<SsTable>| t@);
        let mut sorted: Vec<(usize, Vec<usize>)> = Vec::new();
        let mut n: usize = 0;
        while n < levels.len()
            invariant
                n <= levels@.len(),
                all == lsm_storage::level_ids(levels@),
                tables == sstables@.map_values(|t: Arc<SsTable>| t@),
                forall|n: int, j: int|
                    0 <= n < levels@.len() && 0 <= j < all[n].1.len() ==> (
                    #[trigger] sstables@.contains_key(all[n].1[j])) && sstables@[all[n].1[j]].wf(),
                lsm_storage::level_ids(sorted@) == sorted_levels(all.take(n as int), tables),
            decreases levels@.len() - n,
        {
            let ghost before = lsm_storage::level_ids(sorted@);
            proof {
                let ids = levels@[n as int].1@;
                assert(ids == all[n as int].1);
                assert forall|j: int| 0 <= j < ids.len() implies sstables@.contains_key(
                    #[trigger] ids[j],
                ) && sstables@[ids[j]].wf() by {
                    assert(sstables@.contains_key(all[n as int].1[j]));
                }
            }
            let ids = sort_level(&levels[n].1, sstables);
            let level: usize = levels[n].0;
            sorted.push((level, ids));
            proof {
                let done = sorted_levels(all.take(n as int), tables).push(
                    (all[n as int].0, table_order::sort_by_first(all[n as int].1, tables)),
                );
                assert(all.take(n + 1) =~= all.take(n as int).push(all[n as int]));
                assert(sorted_levels(all.take(n + 1), tables) =~= done);
                assert(lsm_storage::level_ids(sorted@) =~= before.push((level, ids@)));
            }
            n = n + 1;
        }
        assert(all.take(n as int) =~= all);
        sorted
    }

    fn memtables_from_logs(logs: &Vec<(usize, Vec<(Bytes, Bytes)>)>) -> (r: Vec<Arc<MemTable>>)
        ensures
            r@.map_values(|m: Arc<MemTable>| m@) == logged_memtables(log_views(logs@)),
    {
        let ghost all = log_views(logs@);
        let mut memtables: Vec<Arc<MemTable>> = Vec::new();
        assert(memtables@.map_values(|m: Arc<MemTable>| m@) =~= logged_memtables(all.take(0)));
        let mut i: usize = 0;
        while i < logs.len()
            invariant
                i <= logs@.len(),
                all == log_views(logs@),
                memtables@.map_values(|m: Arc<MemTable>| m@) == logged_memtables(
                    all.take(i as int),
                ),
            decreases logs@.len() - i,
        {
            let ghost before = memtables@.map_values(|m: Arc<MemTable>| m@);
            let id: usize = logs[i].0;
            let memtable = MemTable::recover_from_wal(id, &logs[i].1);
            let ghost m = memtable@;
            proof {
                assert(all.take(i + 1).drop_last() =~= all.take(i as int));
                assert(m == logged_memtable(all[i as int].0, all[i as int].1));
            }
            if !memtable.is_empty() {
                memtables.insert(0, Arc::new(memtable));
                assert(memtables@.map_values(|m: Arc<MemTable>| m@) =~= seq![m] + before);
            }
            i = i + 1;
        }
        assert(all.take(i as int) =~= all);
        memtables
    }
}

/// The memtables that logs leave hold finitely many entries.
proof fn logged_memtables_finite(logs: Seq<(usize, Run<Seq<u8>>)>)
    ensures
        forall|i: int|
            0 <= i < logged_memtables(logs).len() ==> (
            #[trigger] logged_memtables(logs)[i]).entries.dom().finite(),
    decreases logs.len(),
{
    if logs.len() > 0 {
        let earlier = logged_memtables(logs.drop_last());
        let back = logged_memtables(logs);
        logged_memtables_finite(logs.drop_last());
        mem_table::replay_finite(logs.last().1);
        assert forall|i: int| 0 <= i < back.len() implies (
        #[trigger] back[i]).entries.dom().finite() by {
            if back.len() == earlier.len() {
                assert(back[i] == earlier[i]);
            } else if i > 0 {
                assert(back[i] == earlier[i - 1]);
            }
        }
    }
}

/// The parts of an engine on a store that was found are sound by themselves.
pub proof fn recovered_parts_are_sound(
    r: RecoveryView,
    tables: Seq<TableView>,
    logs: Seq<(usize, Run<Seq<u8>>)>,
)
    requires
        all_found(r, tables, logs),
    ensures
        recovered(r, tables, logs).state.parts_wf(),
{
    assert forall|i: int| 0 <= i < tables.len() implies (#[trigger] tables[i]).wf() by {}
    opened_has_all(tables);
    logged_memtables_finite(logs);
}

/// Where a table of a level stands among the tables of all levels.
pub proof fn level_table_listed(levels: Seq<(usize, Seq<usize>)>, n: int, j: int) -> (i: int)
    requires
        0 <= n < levels.len(),
        0 <= j < levels[n].1.len(),
    ensures
        0 <= i < level_table_ids(levels).len(),
        level_table_ids(levels)[i] == levels[n].1[j],
    decreases levels.len(),
{
    let before = level_table_ids(levels.drop_last());
    if n == levels.len() - 1 {
        before.len() + j
    } else {
        level_table_listed(levels.drop_last(), n, j)
    }
}

} // verus!
