//! Point reads.

use vstd::prelude::*;
use std::ops::Bound;
use std::sync::Arc;
use bytes::Bytes;
use crate::bound;
use crate::bytes_spec;
use crate::error::StorageError;
use crate::iterators::concat_iterator;
use crate::iterators::concat_iterator::SstConcatIterator;
use crate::iterators::merge_iterator;
use crate::iterators::merge_iterator::MergeIterator;
use crate::iterators::two_merge_iterator;
use crate::iterators::two_merge_iterator::TwoMergeIterator;
use crate::iterators::StorageIterator;
use crate::key;
use crate::key::{bytes_same, KeySlice, UserKeys};
use crate::lsm_storage::model;
use crate::lsm_storage::sources;
use crate::lsm_storage::{key_within, LsmStorageInner, LsmStorageState};
use crate::run;
use crate::run::{Entries, Run};
use crate::table::iterator::SsTableIterator;
use crate::table::{SsTable, TableView};

verus! {

/// The value of the current entry, if it is a live one for the key.
pub fn exact_match<I: StorageIterator<Keys = UserKeys>>(iter: &I, key: &[u8]) -> (r: Option<Bytes>)
    requires
        iter.inv(),
    ensures
        r is Some <==> iter.remaining().len() > 0 && iter.remaining()[0].0 == key@
            && iter.remaining()[0].1.len() > 0,
        r matches Some(v) ==> bytes_spec::bytes_of(v) == iter.remaining()[0].1,
{
    // Seek means "first key not before the target", not "found the target".
    if iter.is_valid() && bytes_same(iter.key().raw_ref(), key) && !iter.value().is_empty() {
        return Some(Bytes::copy_from_slice(iter.value()));
    }
    None
}

/// The value that a stored one stands for: an empty one is a tombstone.
fn live(value: Bytes) -> (r: Option<Bytes>)
    ensures
        r is Some <==> bytes_spec::bytes_of(value).len() > 0,
        r matches Some(v) ==> bytes_spec::bytes_of(v) == bytes_spec::bytes_of(value),
{
    if value.is_empty() {
        None
    } else {
        Some(value)
    }
}

/// Whether a point read has to look into the table. Both tests only rule tables out; what they
/// let through still needs an exact comparison.
pub fn keep_table(key: &[u8], table: &SsTable) -> (r: bool)
    requires
        table.wf(),
    ensures
        r == sources::may_have(table@, key@),
        table@.entries().contains_key(key@) ==> r,
{
    proof {
        sources::table_range(table@);
    }
    key_within(key, table.first_key(), table.last_key()) && table.may_contain(key)
}

/// A cursor that was moved to a key is on the key's entry, if there is one.
proof fn head_decides(s: Run<Seq<u8>>, m: Entries, k: Seq<u8>)
    requires
        run::sorted(s),
        model::agree(run::run_map(s), m, Bound::Included(k), Bound::Included(k)),
        model::starts_at(run::run_map(s), Bound::Included(k)),
    ensures
        m.contains_key(k) <==> s.len() > 0 && s[0].0 == k,
        m.contains_key(k) ==> m[k] == s[0].1,
{
    broadcast use key::group_key_order;

    assert(bound::within(Bound::Included(k), Bound::Included(k), k));
    if s.len() > 0 {
        run::run_map_at(s, 0);
        run::run_map_drop_first(s);
    } else {
        run::run_map_empty(s);
    }
}

/// Finds a key in tables that lie below one another, by positioned cursors on them: those of L0
/// first, then those of the levels. The cursors may be ones that can fail.
pub fn merge_lookup<A: StorageIterator<Keys = UserKeys>, B: StorageIterator<Keys = UserKeys>>(
    l0_iters: Vec<A>,
    level_iters: Vec<B>,
    key: &[u8],
) -> (r: Result<Option<Bytes>, StorageError>)
    requires
        forall|i: int| 0 <= i < l0_iters@.len() ==> (#[trigger] l0_iters@[i]).inv(),
        forall|i: int| 0 <= i < level_iters@.len() ==> (#[trigger] level_iters@[i]).inv(),
    ensures
        r matches Ok(v) ==> {
            let s = run::merge2(
                run::merge_all(merge_iterator::runs_of(l0_iters@)),
                run::merge_all(merge_iterator::runs_of(level_iters@)),
            );
            &&& v is Some <==> s.len() > 0 && s[0].0 == key@ && s[0].1.len() > 0
            &&& v matches Some(b) ==> bytes_spec::bytes_of(b) == s[0].1
        },
        r matches Err(e) ==> exists|i: int|
            0 <= i < level_iters@.len() && (#[trigger] level_iters@[i]).can_fail(e),
        !two_merge_iterator::tied(
            run::merge_all(merge_iterator::runs_of(l0_iters@)),
            run::merge_all(merge_iterator::runs_of(level_iters@)),
        ) ==> r is Ok,
{
    let l0_iter = MergeIterator::create(l0_iters);
    let iter = TwoMergeIterator::create(l0_iter, MergeIterator::create(level_iters))?;
    Ok(exact_match(&iter, key))
}

impl LsmStorageState {
    /// Cursors on the L0 tables that may have the key, latest first.
    fn l0_cursors_at(&self, key: &[u8]) -> (r: Vec<SsTableIterator>)
        requires
            self@.wf(),
        ensures
            sources::cursors_for(
                r@,
                self@.l0_sources(),
                Bound::Included(key@),
                Bound::Included(key@),
            ),
            r@.len() == sources::candidates(self@.tables(self@.l0_sstables), key@).len(),
    {
        let ghost at = Bound::Included(key@);
        let ghost held = self@.l0_sources();
        let ghost tables = self@.tables(self@.l0_sstables);
        let mut iters: Vec<SsTableIterator> = Vec::new();
        proof {
            sources::no_cursors::<SsTableIterator>(at, at);
            assert(held.take(0) =~= Seq::empty());
            reveal(Seq::filter);
        }
        let mut i: usize = 0;
        while i < self.l0_sstables.len()
            invariant
                i <= self.l0_sstables@.len(),
                self@.wf(),
                at == Bound::Included(key@),
                held == self@.l0_sources(),
                tables == self@.tables(self@.l0_sstables),
                sources::cursors_for(iters@, held.take(i as int), at, at),
                iters@.len() == sources::candidates(tables.take(i as int), key@).len(),
            decreases self.l0_sstables@.len() - i,
        {
            let id: usize = self.l0_sstables[i];
            assert(self@.has_table(self@.l0_sstables[i as int]));
            let table = self.table(id);
            let ghost t = table@;
            proof {
                assert(held.take(i + 1) =~= held.take(i as int).push(t.entries()));
                sources::filter_step(
                    tables,
                    i as int,
                    |t: TableView| sources::may_have(t, key@),
                );
            }
            if keep_table(key, &table) {
                let iter = SsTableIterator::create_and_seek_to_key(
                    table,
                    KeySlice::from_slice(key),
                );
                proof {
                    sources::from_bound_shows(t.run, at, at);
                    sources::cursors_push(
                        iters@,
                        iter,
                        held.take(i as int),
                        t.entries(),
                        at,
                        at,
                    );
                }
                iters.push(iter);
            } else {
                proof {
                    broadcast use key::group_key_order;

                    sources::cursors_skip(iters@, held.take(i as int), t.entries(), at, at);
                }
            }
            i = i + 1;
        }
        assert(held.take(i as int) =~= held);
        assert(tables.take(i as int) =~= tables);
        iters
    }

    /// The tables of a level that may have the key.
    pub fn level_tables_at(&self, ids: &Vec<usize>, key: &[u8]) -> (r: Vec<Arc<SsTable>>)
        requires
            self@.level_wf(ids@),
        ensures
            sources::kept_of(
                concat_iterator::table_views(r@),
                self@.tables(ids@),
                ids@.len() as int,
                Bound::Included(key@),
                Bound::Included(key@),
            ),
            concat_iterator::table_views(r@) == sources::candidates(self@.tables(ids@), key@),
    {
        let ghost at = Bound::Included(key@);
        let ghost all = self@.tables(ids@);
        let mut kept: Vec<Arc<SsTable>> = Vec::new();
        proof {
            sources::nothing_kept(all, at, at);
            assert(concat_iterator::table_views(kept@) =~= Seq::empty());
            reveal(Seq::filter);
            assert(sources::candidates(all.take(0), key@) =~= Seq::empty());
        }
        let mut i: usize = 0;
        while i < ids.len()
            invariant
                i <= ids@.len(),
                self@.level_wf(ids@),
                at == Bound::Included(key@),
                all == self@.tables(ids@),
                sources::kept_of(concat_iterator::table_views(kept@), all, i as int, at, at),
                concat_iterator::table_views(kept@) == sources::candidates(
                    all.take(i as int),
                    key@,
                ),
            decreases ids@.len() - i,
        {
            let id: usize = ids[i];
            assert(self@.has_table(ids@[i as int]));
            let table = self.table(id);
            let ghost before = concat_iterator::table_views(kept@);
            let keep: bool = keep_table(key, &table);
            proof {
                broadcast use key::group_key_order;

                assert(all[i as int] == table@);
                sources::level_step(before, all, i as int, keep, at, at);
                sources::filter_step(all, i as int, |t: TableView| sources::may_have(t, key@));
            }
            if keep {
                kept.push(table);
                assert(concat_iterator::table_views(kept@) =~= before.push(all[i as int]));
            }
            i = i + 1;
        }
        assert(all.take(i as int) =~= all);
        kept
    }

    /// A cursor for each level or tier on its tables that may have the key.
    fn level_cursors_at(&self, key: &[u8]) -> (r: Vec<SstConcatIterator>)
        requires
            self@.wf(),
        ensures
            sources::cursors_for(
                r@,
                self@.level_sources(),
                Bound::Included(key@),
                Bound::Included(key@),
            ),
    {
        let ghost at = Bound::Included(key@);
        let ghost held = self@.level_sources();
        let mut iters: Vec<SstConcatIterator> = Vec::new();
        proof {
            sources::no_cursors::<SstConcatIterator>(at, at);
            assert(held.take(0) =~= Seq::empty());
        }
        let mut i: usize = 0;
        while i < self.levels.len()
            invariant
                i <= self.levels@.len(),
                self@.wf(),
                at == Bound::Included(key@),
                held == self@.level_sources(),
                sources::cursors_for(iters@, held.take(i as int), at, at),
            decreases self.levels@.len() - i,
        {
            let ghost ids = self@.levels[i as int].1;
            assert(self@.level_wf(ids));
            let kept = self.level_tables_at(&self.levels[i].1, key);
            let ghost views = concat_iterator::table_views(kept@);
            let iter = SstConcatIterator::create_and_seek_to_key(kept, KeySlice::from_slice(key));
            proof {
                assert(self@.tables(ids).take(ids.len() as int) =~= self@.tables(ids));
                assert(held.take(i + 1) =~= held.take(i as int).push(held[i as int]));
                concat_iterator::level_run_bounds(views);
                sources::from_bound_shows(concat_iterator::level_run(views), at, at);
                sources::cursors_push(
                    iters@,
                    iter,
                    held.take(i as int),
                    held[i as int],
                    at,
                    at,
                );
            }
            iters.push(iter);
            i = i + 1;
        }
        assert(held.take(i as int) =~= held);
        iters
    }

    /// Point read: probe memory first, then seek and merge candidate SSTs.
    pub fn get(&self, key: &[u8]) -> (r: Result<Option<Bytes>, StorageError>)
        requires
            self@.wf(),
        ensures
            r is Ok,
            r matches Ok(v) ==> (v is Some <==> self@.lookup(key@) is Some),
            r matches Ok(Some(v)) ==> self@.lookup(key@) == Some(bytes_spec::bytes_of(v)),
    {
        // Search memory in precedence order: current, then newest immutable through oldest. The
        // first occurrence is authoritative, even a deletion.
        let ghost held = self@.sources();
        if let Some(value) = self.memtable.get(key) {
            proof {
                run::overlay_all_first(held, 0, key@);
            }
            return Ok(live(value));
        }
        let mut i: usize = 0;
        while i < self.imm_memtables.len()
            invariant
                i <= self.imm_memtables@.len(),
                held == self@.sources(),
                !self@.memtable.entries.contains_key(key@),
                forall|j: int|
                    0 <= j < i ==> !(#[trigger] self@.imm_memtables[j]).entries.contains_key(key@),
            decreases self.imm_memtables@.len() - i,
        {
            if let Some(value) = self.imm_memtables[i].get(key) {
                proof {
                    assert forall|j: int| 0 <= j < i + 1 implies !(
                    #[trigger] held[j]).contains_key(key@) by {
                        if j > 0 {
                            assert(!self@.imm_memtables[j - 1].entries.contains_key(key@));
                        }
                    }
                    assert(held[i + 1] == self@.imm_memtables[i as int].entries);
                    run::overlay_all_first(held, i + 1, key@);
                }
                return Ok(live(value));
            }
            assert(!self@.imm_memtables[i as int].entries.contains_key(key@));
            i = i + 1;
        }
        proof {
            assert forall|j: int| 0 <= j < self@.memory_sources().len() implies !(
            #[trigger] self@.memory_sources()[j]).contains_key(key@) by {
                if j > 0 {
                    assert(!self@.imm_memtables[j - 1].entries.contains_key(key@));
                }
            }
            run::overlay_all_absent(self@.memory_sources(), key@);
            run::overlay_all_concat(self@.memory_sources(), self@.l0_sources());
            run::overlay_all_concat(
                self@.memory_sources() + self@.l0_sources(),
                self@.level_sources(),
            );
        }
        // L0 tables overlap, so each has a cursor of its own; the tables of a level are disjoint,
        // and levels or tiers overlap one another.
        let l0_iters = self.l0_cursors_at(key);
        let level_iters = self.level_cursors_at(key);
        proof {
            sources::merge_shows(l0_iters@);
            sources::merge_shows(level_iters@);
        }
        proof {
            let at = Bound::Included(key@);
            let upper = run::merge_all(merge_iterator::runs_of(l0_iters@));
            let lower = run::merge_all(merge_iterator::runs_of(level_iters@));
            run::merge2_is_overlay(upper, lower);
            model::agree_overlay(
                run::run_map(upper),
                run::overlay_all(self@.l0_sources()),
                run::run_map(lower),
                run::overlay_all(self@.level_sources()),
                at,
                at,
            );
            head_decides(
                run::merge2(upper, lower),
                run::overlay(
                    run::overlay_all(self@.l0_sources()),
                    run::overlay_all(self@.level_sources()),
                ),
                key@,
            );
        }
        merge_lookup(l0_iters, level_iters, key)
    }
}

impl LsmStorageInner {
    /// Point read.
    pub fn get(&self, key: &[u8]) -> (r: Result<Option<Bytes>, StorageError>)
        requires
            self@.state.wf(),
        ensures
            r is Ok,
            r matches Ok(v) ==> (v is Some <==> self@.state.lookup(key@) is Some),
            r matches Ok(Some(v)) ==> self@.state.lookup(key@) == Some(bytes_spec::bytes_of(v)),
    {
        self.state.get(key)
    }
}

} // verus!
