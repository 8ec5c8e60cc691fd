//! The write path: batches, and freezing the current memtable.

use vstd::prelude::*;
use std::sync::Arc;
use bytes::Bytes;
use crate::error::StorageError;
use crate::lsm_storage;
use crate::lsm_storage::steps;
use crate::lsm_storage::actions;
use crate::lsm_storage::actions::{Action, ManifestRecord, Phase};
use crate::lsm_storage::steps::{EngineView, WriteStepView};
use crate::lsm_storage::{
    record_fields, validate_write_batch, AsBytes, LsmStorageInner, WriteBatchRecord,
};
use crate::mem_table::MemTable;

verus! {

/// The steps of a freeze.
pub enum FreezeStep {
    Begin,
    Publish(MemTable),
}

/// The engine is sound, and so is what the step publishes.
pub open spec fn freeze_sound(e: EngineView, step: FreezeStep) -> bool {
    e.wf() && (step matches FreezeStep::Publish(m) ==> steps::can_publish(e, m@))
}

impl LsmStorageInner {
    pub fn next_sst_id(&mut self) -> (r: usize)
        requires
            old(self).next_sst_id < usize::MAX,
        ensures
            r == old(self).next_sst_id,
            final(self)@ == steps::id_taken(old(self)@),
            final(self).same_rules(old(self)),
    {
        let id: usize = self.next_sst_id;
        self.next_sst_id = id + 1;
        id
    }

    /// Freeze changes ownership in the layout; it does not write an SST. The old memtable goes to
    /// the front to preserve newest-to-oldest priority, and its log has to be synced afterwards.
    pub fn freeze_memtable_with_memtable(&mut self, memtable: MemTable) -> (r: Vec<Action>)
        ensures
            final(self)@ == steps::frozen(old(self)@, memtable@),
            final(self).same_rules(old(self)),
            actions::action_views(r@) == steps::sync_actions(old(self)@.state.memtable),
    {
        let mut old_memtable = memtable;
        std::mem::swap(&mut self.state.memtable, &mut old_memtable);
        let mut actions: Vec<Action> = Vec::new();
        if let Some(id) = old_memtable.sync_wal() {
            actions.push(Action::SyncWal(id));
        }
        self.state.imm_memtables.insert(0, Arc::new(old_memtable));
        proof {
            assert(actions::action_views(actions@) =~= steps::sync_actions(
                old(self)@.state.memtable,
            ));
            assert(self@.state.imm_memtables =~= seq![old(self)@.state.memtable] + old(
                self,
            )@.state.imm_memtables);
            assert(self@ =~= steps::frozen(old(self)@, memtable@));
        }
        actions
    }

    /// The replacement for the current memtable, and what has to be done before it takes over.
    fn begin_freeze(&mut self) -> (r: (MemTable, Vec<Action>))
        requires
            old(self).next_sst_id < usize::MAX,
        ensures
            r.0@ == steps::replacement(old(self)@),
            actions::action_views(r.1@) == steps::freeze_actions(old(self)@),
            final(self)@ == steps::id_taken(old(self)@),
            final(self).same_rules(old(self)),
    {
        let memtable_id: usize = self.next_sst_id();
        let mut actions: Vec<Action> = Vec::new();
        let memtable = if self.options.enable_wal {
            actions.push(Action::CreateWal(memtable_id));
            MemTable::create_with_wal(memtable_id)
        } else {
            MemTable::create(memtable_id)
        };
        if self.options.enable_wal {
            actions.push(Action::SyncDir);
        }
        actions.push(Action::AddRecord(ManifestRecord::NewMemtable(memtable_id)));
        assert(actions::action_views(actions@) =~= steps::freeze_actions(old(self)@));
        (memtable, actions)
    }

    /// Force freeze the current memtable to an immutable memtable: create the replacement and its
    /// log, record it, then publish the swap.
    pub fn force_freeze_memtable(&mut self, step: FreezeStep) -> (r: Phase<FreezeStep>)
        requires
            step is Begin ==> old(self).next_sst_id < usize::MAX,
        ensures
            final(self).same_rules(old(self)),
            step is Begin ==> {
                &&& final(self)@ == steps::id_taken(old(self)@)
                &&& actions::action_views(r.actions@) == steps::freeze_actions(old(self)@)
                &&& r.next matches Some(FreezeStep::Publish(m))
                &&& m@ == steps::replacement(old(self)@)
            },
            step matches FreezeStep::Publish(m) ==> {
                &&& final(self)@ == steps::frozen(old(self)@, m@)
                &&& actions::action_views(r.actions@) == steps::sync_actions(
                    old(self)@.state.memtable,
                )
                &&& r.next is None
            },
            freeze_sound(old(self)@, step) ==> final(self)@.wf() && (r.next matches Some(s)
                ==> freeze_sound(final(self)@, s)),
    {
        proof {
            if freeze_sound(self@, step) {
                match &step {
                    FreezeStep::Begin => steps::replacement_is_free(self@),
                    FreezeStep::Publish(m) => steps::frozen_keeps_wf(self@, m@),
                }
            }
        }
        match step {
            FreezeStep::Begin => {
                let (memtable, actions) = self.begin_freeze();
                Phase { actions, next: Some(FreezeStep::Publish(memtable)) }
            },
            FreezeStep::Publish(memtable) => {
                let actions = self.freeze_memtable_with_memtable(memtable);
                Phase { actions, next: None }
            },
        }
    }
}

/// The steps of a batch.
pub enum WriteStep {
    Begin,
    Put(usize),
    TryFreeze(usize, usize),
    Publish(usize, MemTable),
}

/// Where a batch stands.
pub open spec fn write_step_view(step: Option<WriteStep>) -> WriteStepView {
    match step {
        Some(WriteStep::Begin) => WriteStepView::Begin,
        Some(WriteStep::Put(i)) => WriteStepView::Put(i as int),
        Some(WriteStep::TryFreeze(i, n)) => WriteStepView::TryFreeze(i as int, n),
        Some(WriteStep::Publish(i, m)) => WriteStepView::Publish(i as int, m@),
        None => WriteStepView::Done,
    }
}

/// The record names a key, and a put has a value: the empty value is kept for deletions.
pub open spec fn writable<T: AsBytes>(r: WriteBatchRecord<T>) -> bool {
    match r {
        WriteBatchRecord::Put(k, v) => k.bytes().len() > 0 && v.bytes().len() > 0,
        WriteBatchRecord::Del(k) => k.bytes().len() > 0,
    }
}

/// The step can be taken for a batch.
pub open spec fn write_ready<T: AsBytes>(
    e: EngineView,
    batch: Seq<WriteBatchRecord<T>>,
    step: WriteStep,
) -> bool {
    match step {
        WriteStep::Begin => true,
        WriteStep::Put(i) => {
            &&& e.wf()
            &&& i <= batch.len()
            &&& lsm_storage::batch_error(lsm_storage::batch_entries(batch)) is None
            &&& i < batch.len() ==> writable(batch[i as int])
        },
        WriteStep::TryFreeze(i, _) => i < batch.len() && e.next_sst_id < usize::MAX,
        WriteStep::Publish(i, _) => i < batch.len(),
    }
}

/// The step can be taken for a batch of one record.
pub open spec fn single_ready(e: EngineView, step: WriteStep) -> bool {
    match step {
        WriteStep::Begin => true,
        WriteStep::Put(i) => e.wf() && i <= 1,
        WriteStep::TryFreeze(i, _) => i == 0 && e.next_sst_id < usize::MAX,
        WriteStep::Publish(i, _) => i == 0,
    }
}

/// The engine is sound, and so is what the step publishes.
pub open spec fn write_sound(e: EngineView, step: WriteStep) -> bool {
    e.wf() && (step matches WriteStep::Publish(_, m) ==> steps::can_publish(e, m@))
}

/// A step keeps the engine sound.
pub open spec fn stays_sound(
    before: EngineView,
    step: WriteStep,
    after: EngineView,
    r: Result<Phase<WriteStep>, StorageError>,
) -> bool {
    write_sound(before, step) ==> after.wf() && (r matches Ok(p) ==> (p.next matches Some(s)
        ==> write_sound(after, s)))
}

/// In a batch that passed validation every field is small.
proof fn validated_fields(entries: Seq<(Seq<u8>, Seq<u8>)>, i: int)
    requires
        lsm_storage::batch_error(entries) is None,
        0 <= i < entries.len(),
    ensures
        entries[i].0.len() <= u16::MAX,
        entries[i].1.len() <= u16::MAX,
    decreases i,
{
    if i > 0 {
        validated_fields(entries.drop_first(), i - 1);
        assert(entries.drop_first()[i - 1] == entries[i]);
    }
}

impl LsmStorageInner {
    /// Freezes the memtable if it is too large. The size is checked again here: another writer may
    /// have frozen the memtable that gave the estimate.
    fn try_freeze(&mut self, estimated_size: usize) -> (r: Option<(MemTable, Vec<Action>)>)
        requires
            old(self).next_sst_id < usize::MAX,
        ensures
            final(self).same_rules(old(self)),
            r is Some <==> steps::is_full(old(self)@, estimated_size),
            r is None ==> final(self)@ == old(self)@,
            r matches Some((m, actions)) ==> {
                &&& final(self)@ == steps::id_taken(old(self)@)
                &&& m@ == steps::replacement(old(self)@)
                &&& actions::action_views(actions@) == steps::freeze_actions(old(self)@)
            },
    {
        if estimated_size >= self.options.target_sst_size {
            if self.state.memtable.approximate_size() >= self.options.target_sst_size {
                return Some(self.begin_freeze());
            }
        }
        None
    }

    /// Writes a batch, one record at a time: validate all of it, then for each record change the
    /// memtable, let the log be appended to, and freeze the memtable if it is too large.
    pub fn write_batch<T: AsBytes>(
        &mut self,
        batch: &[WriteBatchRecord<T>],
        step: WriteStep,
    ) -> (r: Result<Phase<WriteStep>, StorageError>)
        requires
            write_ready(old(self)@, batch@, step),
        ensures
            final(self).same_rules(old(self)),
            r is Err <==> step is Begin && lsm_storage::batch_error(
                lsm_storage::batch_entries(batch@),
            ) is Some,
            r matches Err(e) ==> {
                &&& lsm_storage::batch_error(lsm_storage::batch_entries(batch@)) == Some(e)
                &&& final(self)@ == old(self)@
            },
            r matches Ok(p) ==> {
                &&& (final(self)@, write_step_view(p.next)) == steps::write_step(
                    old(self)@,
                    lsm_storage::batch_entries(batch@),
                    write_step_view(Some(step)),
                )
                &&& actions::action_views(p.actions@) == steps::write_actions(
                    old(self)@,
                    lsm_storage::batch_entries(batch@),
                    write_step_view(Some(step)),
                )
            },
            stays_sound(old(self)@, step, final(self)@, r),
    {
        proof {
            if write_sound(self@, step) {
                match &step {
                    WriteStep::TryFreeze(_, _) => steps::replacement_is_free(self@),
                    WriteStep::Publish(_, m) => steps::frozen_keeps_wf(self@, m@),
                    _ => {},
                }
            }
        }
        let ghost entries = lsm_storage::batch_entries(batch@);
        let mut actions: Vec<Action> = Vec::new();
        let records: usize = batch.len();
        match step {
            WriteStep::Begin => {
                validate_write_batch(batch)?;
                assert(actions::action_views(actions@) =~= Seq::empty());
                Ok(Phase { actions, next: Some(WriteStep::Put(0)) })
            },
            WriteStep::Put(i) => {
                if i >= records {
                    assert(actions::action_views(actions@) =~= Seq::empty());
                    return Ok(Phase { actions, next: None });
                }
                let (key, value) = record_fields(&batch[i]);
                proof {
                    validated_fields(entries, i as int);
                    steps::put_keeps_wf(self@, key@, value@);
                }
                if let Some(id) = self.state.memtable.put(key, value) {
                    actions.push(
                        Action::AppendWal(
                            id,
                            Bytes::copy_from_slice(key),
                            Bytes::copy_from_slice(value),
                        ),
                    );
                }
                let size: usize = self.state.memtable.approximate_size();
                proof {
                    assert(self@ =~= steps::put(old(self)@, key@, value@));
                    assert(actions::action_views(actions@) =~= steps::write_actions(
                        old(self)@,
                        entries,
                        WriteStepView::Put(i as int),
                    ));
                }
                Ok(Phase { actions, next: Some(WriteStep::TryFreeze(i, size)) })
            },
            WriteStep::TryFreeze(i, size) => {
                match self.try_freeze(size) {
                    Some((memtable, actions)) => Ok(
                        Phase { actions, next: Some(WriteStep::Publish(i, memtable)) },
                    ),
                    None => {
                        assert(actions::action_views(actions@) =~= Seq::empty());
                        Ok(Phase { actions, next: Some(WriteStep::Put(i + 1)) })
                    },
                }
            },
            WriteStep::Publish(i, memtable) => {
                let actions = self.freeze_memtable_with_memtable(memtable);
                Ok(Phase { actions, next: Some(WriteStep::Put(i + 1)) })
            },
        }
    }

    /// Put a key-value pair into the storage by writing into the current memtable: a batch of one
    /// record.
    pub fn put(&mut self, key: &[u8], value: &[u8], step: WriteStep) -> (r: Result<
        Phase<WriteStep>,
        StorageError,
    >)
        requires
            step is Put ==> 0 < key@.len() <= u16::MAX && 0 < value@.len() <= u16::MAX,
            single_ready(old(self)@, step),
        ensures
            final(self).same_rules(old(self)),
            r is Err <==> step is Begin && (key@.len() > u16::MAX || value@.len() > u16::MAX),
            r matches Err(e) ==> {
                &&& e == if key@.len() > u16::MAX {
                    StorageError::KeyTooLarge
                } else {
                    StorageError::ValueTooLarge
                }
                &&& final(self)@ == old(self)@
            },
            r matches Ok(p) ==> {
                &&& (final(self)@, write_step_view(p.next)) == steps::write_step(
                    old(self)@,
                    seq![(key@, value@)],
                    write_step_view(Some(step)),
                )
                &&& actions::action_views(p.actions@) == steps::write_actions(
                    old(self)@,
                    seq![(key@, value@)],
                    write_step_view(Some(step)),
                )
            },
            stays_sound(old(self)@, step, final(self)@, r),
    {
        let batch = [WriteBatchRecord::Put(key, value)];
        proof {
            assert(batch@ =~= seq![WriteBatchRecord::Put(key, value)]);
            assert(lsm_storage::batch_entries(batch@) =~= seq![(key@, value@)]);
            reveal_with_fuel(lsm_storage::batch_error, 2);
        }
        self.write_batch(&batch, step)
    }

    /// Remove a key from the storage by writing an empty value: a batch of one record.
    pub fn delete(&mut self, key: &[u8], step: WriteStep) -> (r: Result<
        Phase<WriteStep>,
        StorageError,
    >)
        requires
            step is Put ==> 0 < key@.len() <= u16::MAX,
            single_ready(old(self)@, step),
        ensures
            final(self).same_rules(old(self)),
            r is Err <==> step is Begin && key@.len() > u16::MAX,
            r matches Err(e) ==> e == StorageError::KeyTooLarge && final(self)@ == old(self)@,
            r matches Ok(p) ==> {
                &&& (final(self)@, write_step_view(p.next)) == steps::write_step(
                    old(self)@,
                    seq![(key@, Seq::empty())],
                    write_step_view(Some(step)),
                )
                &&& actions::action_views(p.actions@) == steps::write_actions(
                    old(self)@,
                    seq![(key@, Seq::empty())],
                    write_step_view(Some(step)),
                )
            },
            stays_sound(old(self)@, step, final(self)@, r),
    {
        let batch = [WriteBatchRecord::Del(key)];
        proof {
            assert(batch@ =~= seq![WriteBatchRecord::Del(key)]);
            assert(lsm_storage::batch_entries(batch@) =~= seq![(key@, Seq::empty())]);
            reveal_with_fuel(lsm_storage::batch_error, 2);
        }
        self.write_batch(&batch, step)
    }

    /// What makes the current memtable durable. Without a log there is nothing to do: this does not
    /// flush memory.
    pub fn sync(&self) -> (r: Vec<Action>)
        ensures
            actions::action_views(r@) == steps::sync_actions(self@.state.memtable),
    {
        let mut actions: Vec<Action> = Vec::new();
        if let Some(id) = self.state.memtable.sync_wal() {
            actions.push(Action::SyncWal(id));
        }
        assert(actions::action_views(actions@) =~= steps::sync_actions(self@.state.memtable));
        actions
    }
}

} // verus!
