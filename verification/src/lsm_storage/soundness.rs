//! Looking at an engine to tell whether it can be used.

use vstd::prelude::*;
use crate::key;
use crate::key::{bytes_less, KeyModel};
use crate::lsm_storage::model;
use crate::lsm_storage::{LsmStorageInner, LsmStorageState};
use crate::mem_table::MemTable;

verus! {

impl MemTable {
    /// Whether a store can hold the memtable: there is no entry for the empty key.
    pub fn is_sound(&self) -> (r: bool)
        requires
            self.wf(),
        ensures
            r == model::memtable_wf(self@),
    {
        let nothing: &[u8] = &[];
        assert(nothing@ =~= Seq::empty());
        self.get(nothing).is_none()
    }
}

impl LsmStorageState {
    /// Whether every memtable is one that a store can hold.
    fn memory_is_sound(&self) -> (r: bool)
        requires
            self@.parts_wf(),
        ensures
            r == self@.memory_wf(),
    {
        if !self.memtable.is_sound() {
            return false;
        }
        let mut i: usize = 0;
        while i < self.imm_memtables.len()
            invariant
                i <= self.imm_memtables@.len(),
                self@.parts_wf(),
                model::memtable_wf(self@.memtable),
                forall|j: int| 0 <= j < i ==> model::memtable_wf(#[trigger] self@.imm_memtables[j]),
            decreases self.imm_memtables@.len() - i,
        {
            assert(self@.imm_memtables[i as int] == self.imm_memtables@[i as int]@);
            if !self.imm_memtables[i].is_sound() {
                return false;
            }
            i = i + 1;
        }
        true
    }

    /// Whether the tables of a level are there and in order.
    fn level_is_sound(&self, ids: &Vec<usize>) -> (r: bool)
        requires
            self@.parts_wf(),
        ensures
            r == self@.level_wf(ids@),
    {
        broadcast use vstd::std_specs::hash::group_hash_axioms;

        let ghost tables = self@.tables(ids@);
        let mut i: usize = 0;
        while i < ids.len()
            invariant
                i <= ids@.len(),
                self@.parts_wf(),
                tables == self@.tables(ids@),
                forall|j: int| 0 <= j < i ==> self@.has_table(#[trigger] ids@[j]),
                forall|a: int, b: int|
                    0 <= a < b < i ==> (#[trigger] tables[a]).last().lt(
                        (#[trigger] tables[b]).first(),
                    ),
            decreases ids@.len() - i,
        {
            proof {
                broadcast use vstd::std_specs::hash::group_hash_axioms;

            }
            let id: usize = ids[i];
            if !self.sstables.contains_key(&id) {
                assert(!self@.has_table(ids@[i as int]));
                return false;
            }
            assert(self@.sstables.contains_key(id));
            assert(self@.has_table(ids@[i as int]));
            if i > 0 {
                let before = self.table(ids[i - 1]);
                let here = self.table(id);
                if !bytes_less(before.last_key().raw_ref(), here.first_key().raw_ref()) {
                    assert(!tables[i - 1].last().lt(tables[i as int].first()));
                    return false;
                }
                proof {
                    broadcast use key::group_key_order;

                    let t = tables[i - 1];
                    assert(self@.has_table(ids@[i - 1]));
                    if t.run.len() > 1 {
                        assert(t.run[0].0.lt(t.run[t.run.len() - 1].0));
                    }
                    assert forall|a: int| 0 <= a < i implies (#[trigger] tables[a]).last().lt(
                        tables[i as int].first(),
                    ) by {
                        if a < i - 1 {
                            assert(tables[a].last().lt(tables[i - 1].first()));
                        }
                    }
                }
            }
            i = i + 1;
        }
        assert forall|j: int| 0 <= j < tables.len() implies (#[trigger] tables[j]).wf() by {
            assert(self@.has_table(ids@[j]));
        }
        true
    }

    /// Whether the layout can be read.
    pub fn is_sound(&self) -> (r: bool)
        requires
            self@.parts_wf(),
        ensures
            r == self@.wf(),
    {
        broadcast use vstd::std_specs::hash::group_hash_axioms;

        if !self.memory_is_sound() {
            return false;
        }
        let mut i: usize = 0;
        while i < self.l0_sstables.len()
            invariant
                i <= self.l0_sstables@.len(),
                self@.parts_wf(),
                forall|j: int| 0 <= j < i ==> self@.has_table(#[trigger] self@.l0_sstables[j]),
            decreases self.l0_sstables@.len() - i,
        {
            proof {
                broadcast use vstd::std_specs::hash::group_hash_axioms;

            }
            let id: usize = self.l0_sstables[i];
            if !self.sstables.contains_key(&id) {
                assert(!self@.has_table(self@.l0_sstables[i as int]));
                return false;
            }
            assert(self@.sstables.contains_key(id));
            i = i + 1;
        }
        let mut n: usize = 0;
        while n < self.levels.len()
            invariant
                n <= self.levels@.len(),
                self@.parts_wf(),
                forall|j: int| 0 <= j < n ==> self@.level_wf((#[trigger] self@.levels[j]).1),
            decreases self.levels@.len() - n,
        {
            if !self.level_is_sound(&self.levels[n].1) {
                assert(!self@.level_wf(self@.levels[n as int].1));
                return false;
            }
            n = n + 1;
        }
        true
    }
}

impl LsmStorageInner {
    /// Whether a memtable has the id.
    fn memtable_has(&self, id: usize) -> (r: bool)
        ensures
            r == self@.memtable_has(id),
    {
        if self.state.memtable.id() == id {
            return true;
        }
        let mut i: usize = 0;
        while i < self.state.imm_memtables.len()
            invariant
                i <= self.state.imm_memtables@.len(),
                self@.state.memtable.id != id,
                forall|j: int| 0 <= j < i ==> (#[trigger] self@.state.imm_memtables[j]).id != id,
            decreases self.state.imm_memtables@.len() - i,
        {
            if self.state.imm_memtables[i].id() == id {
                assert(self@.state.imm_memtables[i as int].id == id);
                return true;
            }
            i = i + 1;
        }
        false
    }

    /// Whether the ids of the immutable memtables decrease, from below that of the current one.
    fn memtable_ids_are_sound(&self) -> (r: bool)
        ensures
            r == ({
                let imm = self@.state.imm_memtables;
                &&& forall|i: int|
                    0 <= i < imm.len() ==> (#[trigger] imm[i]).id < self@.state.memtable.id
                &&& forall|i: int, j: int|
                    0 <= i < j < imm.len() ==> (#[trigger] imm[i]).id > (#[trigger] imm[j]).id
            }),
    {
        let ghost imm = self@.state.imm_memtables;
        let mut above: usize = self.state.memtable.id();
        let mut i: usize = 0;
        while i < self.state.imm_memtables.len()
            invariant
                i <= self.state.imm_memtables@.len(),
                imm == self@.state.imm_memtables,
                i == 0 ==> above == self@.state.memtable.id,
                i > 0 ==> above == imm[i - 1].id,
                above <= self@.state.memtable.id,
                forall|j: int| 0 <= j < i ==> (#[trigger] imm[j]).id >= above,
                forall|j: int| 0 <= j < i ==> (#[trigger] imm[j]).id < self@.state.memtable.id,
                forall|a: int, b: int|
                    0 <= a < b < i ==> (#[trigger] imm[a]).id > (#[trigger] imm[b]).id,
            decreases self.state.imm_memtables@.len() - i,
        {
            let id: usize = self.state.imm_memtables[i].id();
            assert(imm[i as int].id == id);
            if id >= above {
                return false;
            }
            above = id;
            i = i + 1;
        }
        true
    }

    /// Whether no table has the id of a memtable, or one that is still to be given away.
    fn table_ids_are_sound(&self) -> (r: bool)
        ensures
            r == (forall|id: usize| #[trigger]
                self@.state.sstables.contains_key(id) ==> id < self@.next_sst_id
                    && !self@.memtable_has(id)),
    {
        broadcast use vstd::std_specs::hash::group_hash_axioms;

        let ghost all = vstd::std_specs::iter::IteratorSpec::remaining(
            &vstd::std_specs::hash::spec_keys_iter(&self.state.sstables),
        );
        let mut sound: bool = true;
        for id in it: self.state.sstables.keys()
            invariant
                it.seq() == all,
                sound == forall|j: int|
                    0 <= j < it.index() ==> *(#[trigger] all[j]) < self@.next_sst_id
                        && !self@.memtable_has(*all[j]),
        {
            sound = sound && *id < self.next_sst_id && !self.memtable_has(*id);
        }
        proof {
            assert(all.unref().to_set() == self.state.sstables@.dom());
            assert forall|id: usize|
                self@.state.sstables.contains_key(id) <==> all.unref().contains(id) by {
                assert(all.unref().to_set().contains(id) <==> all.unref().contains(id));
            }
            assert forall|j: int| 0 <= j < all.len() implies self@.state.sstables.contains_key(
                *(#[trigger] all[j]),
            ) by {
                assert(all.unref()[j] == *all[j]);
                assert(all.unref().contains(*all[j]));
            }
            assert forall|id: usize| #[trigger] self@.state.sstables.contains_key(
                id,
            ) implies exists|j: int| 0 <= j < all.len() && *(#[trigger] all[j]) == id by {
                let j = choose|j: int| 0 <= j < all.unref().len() && all.unref()[j] == id;
                assert(*all[j] == id);
            }
        }
        sound
    }

    /// Whether the engine can be used. Opening a store makes an engine whose parts are sound by
    /// themselves; that they fit together is up to what was found.
    pub fn is_sound(&self) -> (r: bool)
        requires
            self@.state.parts_wf(),
        ensures
            r == self@.wf(),
    {
        self.state.is_sound() && self.state.memtable.id() < self.next_sst_id
            && self.memtable_ids_are_sound() && self.table_ids_are_sound() && (
        self.compaction_controller.flush_to_l0() || self.state.l0_sstables.len() == 0)
    }
}

} // verus!
