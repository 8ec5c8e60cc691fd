//! Turning immutable memtables into tables, and closing the store.

use vstd::prelude::*;
use std::sync::Arc;
use crate::lsm_storage::model;
use crate::lsm_storage::steps;
use crate::lsm_storage::actions;
use crate::lsm_storage::actions::{Action, ActionView, ManifestRecord, Phase};
use crate::lsm_storage::steps::{CloseStepView, EngineView, ForceFlushStepView};
use crate::lsm_storage::write_path::FreezeStep;
use crate::lsm_storage::LsmStorageInner;
use crate::mem_table;
use crate::mem_table::MemTable;
use crate::run;
use crate::run::Entries;
use crate::table::{SsTable, SsTableBuilder, TableView};

verus! {

/// The steps of a flush.
pub enum FlushStep {
    Begin,
    Install(Arc<SsTable>),
}

/// A table can be made of the earliest immutable memtable, if there is one: it has an entry.
pub open spec fn can_flush(e: EngineView) -> bool {
    e.state.imm_memtables.len() > 0 ==> e.state.imm_memtables.last().entries != Entries::empty()
}

/// The table belongs to the earliest immutable memtable.
pub open spec fn can_install(e: EngineView, t: TableView) -> bool {
    &&& e.state.imm_memtables.len() > 0
    &&& e.state.imm_memtables.last().id == t.id
    &&& t.wf()
}

/// More memtables are in memory than the options allow, the current one counted.
pub open spec fn is_flush_due(e: EngineView) -> bool {
    1 + e.state.imm_memtables.len() > e.options.num_memtable_limit
}

/// The steps of a forced flush.
pub enum ForceFlushStep {
    Begin,
    Publish(MemTable),
    Flush,
    Install(Arc<SsTable>),
}

pub open spec fn force_flush_step_view(step: Option<ForceFlushStep>) -> ForceFlushStepView {
    match step {
        Some(ForceFlushStep::Begin) => ForceFlushStepView::Begin,
        Some(ForceFlushStep::Publish(m)) => ForceFlushStepView::Publish(m@),
        Some(ForceFlushStep::Flush) => ForceFlushStepView::Flush,
        Some(ForceFlushStep::Install(t)) => ForceFlushStepView::Install(t@),
        None => ForceFlushStepView::Done,
    }
}

/// The engine is sound, and so is what the step brings in.
pub open spec fn force_flush_sound(e: EngineView, step: ForceFlushStep) -> bool {
    &&& e.wf()
    &&& step matches ForceFlushStep::Publish(m) ==> steps::can_publish(e, m@)
    &&& step matches ForceFlushStep::Install(t) ==> can_install(e, t@)
}

/// The steps of closing the store.
pub enum CloseStep {
    Begin,
    Save,
    Drain,
    Install(Arc<SsTable>),
}

pub open spec fn close_step_view(step: Option<CloseStep>) -> CloseStepView {
    match step {
        Some(CloseStep::Begin) => CloseStepView::Begin,
        Some(CloseStep::Save) => CloseStepView::Save,
        Some(CloseStep::Drain) => CloseStepView::Drain,
        Some(CloseStep::Install(t)) => CloseStepView::Install(t@),
        None => CloseStepView::Done,
    }
}

/// The engine is sound, and so is what the step brings in.
pub open spec fn close_sound(e: EngineView, step: CloseStep) -> bool {
    e.wf() && (step matches CloseStep::Install(t) ==> can_install(e, t@))
}

impl LsmStorageInner {
    /// The table for the earliest immutable memtable.
    fn begin_flush(&self) -> (r: Option<(Arc<SsTable>, Vec<Action>)>)
        requires
            self@.wf(),
            can_flush(self@),
        ensures
            r is Some <==> self@.state.imm_memtables.len() > 0,
            r matches Some((t, actions)) ==> {
                &&& t.wf()
                &&& t@ == steps::table_of(self@.state.imm_memtables.last())
                &&& actions::action_views(actions@) == steps::flush_actions(t@)
            },
    {
        let n: usize = self.state.imm_memtables.len();
        if n == 0 {
            return None;
        }
        let ghost m = self@.state.imm_memtables.last();
        assert(m == self.state.imm_memtables@[n - 1]@);
        assert(model::memtable_wf(self@.state.imm_memtables[n - 1]));
        let mut builder = SsTableBuilder::new();
        self.state.imm_memtables[n - 1].flush(&mut builder);
        proof {
            run::listing_exists(m.entries);
            run::run_map_empty(run::listing(m.entries));
            assert(builder@ =~= run::listing(m.entries));
        }
        let sst_id: usize = self.state.imm_memtables[n - 1].id();
        let sst = Arc::new(builder.build(sst_id));
        let mut actions: Vec<Action> = Vec::new();
        actions.push(Action::WriteSst(Arc::clone(&sst)));
        actions.push(Action::SyncDir);
        assert(actions::action_views(actions@) =~= steps::flush_actions(sst@));
        Some((sst, actions))
    }

    /// Puts the table in the memtable's place.
    fn install_flush(&mut self, sst: Arc<SsTable>) -> (r: Vec<Action>)
        requires
            can_install(old(self)@, sst@),
        ensures
            final(self)@ == steps::installed(old(self)@, sst@),
            final(self).same_rules(old(self)),
            actions::action_views(r@) == steps::install_actions(old(self)@, sst@),
    {
        broadcast use vstd::std_specs::hash::group_hash_axioms;

        let sst_id: usize = sst.sst_id();
        let ghost t = sst@;
        let mem = self.state.imm_memtables.pop();
        // Newer memory remains above the table.
        if self.compaction_controller.flush_to_l0() {
            // In leveled compaction or no compaction, simply flush to L0
            self.state.l0_sstables.insert(0, sst_id);
            assert(self@.state.l0_sstables =~= seq![t.id] + old(self)@.state.l0_sstables);
        } else {
            // In tiered compaction, create a new tier
            let tier: Vec<usize> = vec![sst_id];
            assert(tier@ =~= seq![t.id]);
            self.state.levels.insert(0, (sst_id, tier));
            assert(self@.state.levels =~= seq![(t.id, seq![t.id])] + old(self)@.state.levels);
        }
        self.state.sstables.insert(sst_id, sst);
        let mut actions: Vec<Action> = Vec::new();
        actions.push(Action::AddRecord(ManifestRecord::Flush(sst_id)));
        if self.options.enable_wal {
            actions.push(Action::RemoveWal(sst_id));
        }
        actions.push(Action::SyncDir);
        proof {
            assert(self@.state.sstables =~= old(self)@.state.sstables.insert(t.id, t));
            assert(self@.state.imm_memtables =~= old(self)@.state.imm_memtables.drop_last());
            assert(self@ =~= steps::installed(old(self)@, t));
            assert(actions::action_views(actions@) =~= steps::install_actions(old(self)@, t));
        }
        actions
    }

    /// Force flush the earliest-created immutable memtable to disk: write and sync the table before
    /// it replaces its memory source, and record the flush before the log is removed.
    pub fn force_flush_next_imm_memtable(&mut self, step: FlushStep) -> (r: Phase<FlushStep>)
        requires
            step is Begin ==> old(self)@.wf() && can_flush(old(self)@),
            step matches FlushStep::Install(t) ==> can_install(old(self)@, t@),
        ensures
            final(self).same_rules(old(self)),
            step is Begin ==> final(self)@ == old(self)@,
            step is Begin && old(self)@.state.imm_memtables.len() == 0 ==> r.actions@.len() == 0
                && r.next is None,
            step is Begin && old(self)@.state.imm_memtables.len() > 0 ==> {
                &&& r.next matches Some(FlushStep::Install(t))
                &&& t@ == steps::table_of(old(self)@.state.imm_memtables.last())
                &&& actions::action_views(r.actions@) == steps::flush_actions(t@)
            },
            step matches FlushStep::Install(t) ==> {
                &&& final(self)@ == steps::installed(old(self)@, t@)
                &&& actions::action_views(r.actions@) == steps::install_actions(old(self)@, t@)
                &&& r.next is None
            },
            old(self)@.wf() ==> final(self)@.wf(),
            r.next matches Some(FlushStep::Install(t)) ==> can_install(final(self)@, t@),
    {
        proof {
            if self@.wf() && step is Install {
                steps::installed_keeps_wf(self@, step->0@);
            }
        }
        match step {
            FlushStep::Begin => match self.begin_flush() {
                Some((sst, actions)) => Phase { actions, next: Some(FlushStep::Install(sst)) },
                None => Phase { actions: Vec::new(), next: None },
            },
            FlushStep::Install(sst) => {
                let actions = self.install_flush(sst);
                Phase { actions, next: None }
            },
        }
    }

    /// Freezes and flushes: for tests, without concurrent writes.
    pub fn force_flush(&mut self, step: ForceFlushStep) -> (r: Phase<ForceFlushStep>)
        requires
            step is Begin ==> old(self).next_sst_id < usize::MAX,
            step is Flush ==> old(self)@.wf() && can_flush(old(self)@),
            step matches ForceFlushStep::Install(t) ==> can_install(old(self)@, t@),
        ensures
            final(self).same_rules(old(self)),
            (final(self)@, force_flush_step_view(r.next)) == steps::force_flush_step(
                old(self)@,
                force_flush_step_view(Some(step)),
            ),
            actions::action_views(r.actions@) == steps::force_flush_actions(
                old(self)@,
                force_flush_step_view(Some(step)),
            ),
            force_flush_sound(old(self)@, step) ==> final(self)@.wf() && (r.next matches Some(s)
                ==> force_flush_sound(final(self)@, s)),
    {
        proof {
            if force_flush_sound(self@, step) {
                match &step {
                    ForceFlushStep::Begin => steps::replacement_is_free(self@),
                    ForceFlushStep::Publish(m) => steps::frozen_keeps_wf(self@, m@),
                    ForceFlushStep::Flush => {},
                    ForceFlushStep::Install(t) => steps::installed_keeps_wf(self@, t@),
                }
            }
        }
        let none: Vec<Action> = Vec::new();
        assert(actions::action_views(none@) =~= Seq::empty());
        match step {
            ForceFlushStep::Begin => {
                if self.state.memtable.is_empty() {
                    return Phase { actions: none, next: Some(ForceFlushStep::Flush) };
                }
                let p = self.force_freeze_memtable(FreezeStep::Begin);
                match p.next {
                    Some(FreezeStep::Publish(m)) => Phase {
                        actions: p.actions,
                        next: Some(ForceFlushStep::Publish(m)),
                    },
                    _ => Phase { actions: p.actions, next: None },
                }
            },
            ForceFlushStep::Publish(m) => {
                let p = self.force_freeze_memtable(FreezeStep::Publish(m));
                Phase { actions: p.actions, next: Some(ForceFlushStep::Flush) }
            },
            ForceFlushStep::Flush => match self.begin_flush() {
                Some((sst, actions)) => Phase { actions, next: Some(ForceFlushStep::Install(sst)) },
                None => Phase { actions: none, next: None },
            },
            ForceFlushStep::Install(sst) => {
                let actions = self.install_flush(sst);
                Phase { actions, next: None }
            },
        }
    }

    /// Closes the store. The caller stops writers first, and joins the workers after the first
    /// step.
    pub fn close(&mut self, step: CloseStep) -> (r: Phase<CloseStep>)
        requires
            step is Save ==> old(self).next_sst_id < usize::MAX,
            step is Drain ==> old(self)@.wf() && can_flush(old(self)@),
            step matches CloseStep::Install(t) ==> can_install(old(self)@, t@),
        ensures
            final(self).same_rules(old(self)),
            (final(self)@, close_step_view(r.next)) == steps::close_step(
                old(self)@,
                close_step_view(Some(step)),
            ),
            actions::action_views(r.actions@) == steps::close_actions(
                old(self)@,
                close_step_view(Some(step)),
            ),
            close_sound(old(self)@, step) ==> final(self)@.wf() && (r.next matches Some(s)
                ==> close_sound(final(self)@, s)),
    {
        proof {
            if close_sound(self@, step) {
                match &step {
                    CloseStep::Save => {
                        steps::replacement_is_free(self@);
                        steps::frozen_keeps_wf(
                            steps::id_taken(self@),
                            mem_table::fresh(self.next_sst_id, false),
                        );
                    },
                    CloseStep::Install(t) => steps::installed_keeps_wf(self@, t@),
                    _ => {},
                }
            }
        }
        let mut actions: Vec<Action> = Vec::new();
        match step {
            CloseStep::Begin => {
                actions.push(Action::SyncDir);
                assert(actions::action_views(actions@) =~= seq![ActionView::SyncDir]);
                Phase { actions, next: Some(CloseStep::Save) }
            },
            CloseStep::Save => {
                if self.options.enable_wal {
                    let mut actions = self.sync();
                    let ghost before = actions@;
                    actions.push(Action::SyncDir);
                    assert(actions::action_views(actions@) =~= actions::action_views(
                        before,
                    ).push(ActionView::SyncDir));
                    return Phase { actions, next: None };
                }
                // create memtable and skip updating manifest
                if !self.state.memtable.is_empty() {
                    let id: usize = self.next_sst_id();
                    let actions = self.freeze_memtable_with_memtable(MemTable::create(id));
                    return Phase { actions, next: Some(CloseStep::Drain) };
                }
                assert(actions::action_views(actions@) =~= Seq::empty());
                Phase { actions, next: Some(CloseStep::Drain) }
            },
            CloseStep::Drain => match self.begin_flush() {
                Some((sst, actions)) => Phase { actions, next: Some(CloseStep::Install(sst)) },
                None => {
                    actions.push(Action::SyncDir);
                    assert(actions::action_views(actions@) =~= seq![ActionView::SyncDir]);
                    Phase { actions, next: None }
                },
            },
            CloseStep::Install(sst) => {
                let actions = self.install_flush(sst);
                Phase { actions, next: Some(CloseStep::Drain) }
            },
        }
    }

    /// Whether there are more memtables in memory than the options allow.
    pub fn needs_flush(&self) -> (r: bool)
        ensures
            r == (self@.state.imm_memtables.len() + 1 > self.options.num_memtable_limit),
            r == is_flush_due(self@),
    {
        self.state.imm_memtables.len() >= self.options.num_memtable_limit
    }
}

} // verus!
