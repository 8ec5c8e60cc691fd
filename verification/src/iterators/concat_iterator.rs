//! Walking over the tables of one level or tier, one after the other.

use vstd::prelude::*;
use std::sync::Arc;
use crate::bound;
use crate::error::StorageError;
use crate::iterators::StorageIterator;
use crate::key;
use crate::key::{bytes_less, KeyModel, KeySlice, UserKeys};
use crate::run;
use crate::run::Run;
use crate::table::iterator::SsTableIterator;
use crate::table::{SsTable, TableView};

verus! {

/// What some tables are.
pub open spec fn table_views(tables: Seq<Arc<SsTable>>) -> Seq<TableView> {
    tables.map_values(|t: Arc<SsTable>| t@)
}

/// The entries of tables, one table after the other.
pub open spec fn level_run(tables: Seq<TableView>) -> Run<Seq<u8>>
    decreases tables.len(),
{
    if tables.len() == 0 {
        Seq::empty()
    } else {
        tables[0].run + level_run(tables.drop_first())
    }
}

/// The tables are in order: all keys of one come before all keys of the next.
pub open spec fn disjoint(tables: Seq<TableView>) -> bool {
    &&& forall|i: int| 0 <= i < tables.len() ==> (#[trigger] tables[i]).wf()
    &&& forall|i: int, j: int|
        0 <= i < j < tables.len() ==> (#[trigger] tables[i]).last().lt(
            (#[trigger] tables[j]).first(),
        )
}

/// The entries of a table and of those after it, of which the table's come first.
pub proof fn level_run_from(tables: Seq<TableView>, i: int)
    requires
        0 <= i < tables.len(),
    ensures
        level_run(tables.skip(i)) == tables[i].run + level_run(tables.skip(i + 1)),
{
    assert(tables.skip(i).drop_first() =~= tables.skip(i + 1));
}

pub proof fn level_run_split(tables: Seq<TableView>, i: int)
    requires
        0 <= i <= tables.len(),
    ensures
        level_run(tables) == level_run(tables.take(i)) + level_run(tables.skip(i)),
    decreases i,
{
    if i == 0 {
        assert(tables.skip(0) =~= tables);
        assert(level_run(tables.take(0)).len() == 0);
        assert(level_run(tables) =~= level_run(tables.take(0)) + level_run(tables.skip(0)));
    } else {
        level_run_split(tables, i - 1);
        level_run_from(tables, i - 1);
        level_run_push(tables.take(i - 1), tables[i - 1]);
        assert(tables.take(i) =~= tables.take(i - 1).push(tables[i - 1]));
        assert(level_run(tables) =~= level_run(tables.take(i)) + level_run(tables.skip(i)));
    }
}

pub proof fn level_run_push(tables: Seq<TableView>, t: TableView)
    ensures
        level_run(tables.push(t)) == level_run(tables) + t.run,
    decreases tables.len(),
{
    let all = tables.push(t);
    if tables.len() == 0 {
        assert(level_run(all.drop_first()).len() == 0);
        assert(level_run(all) =~= level_run(tables) + t.run);
    } else {
        assert(all.drop_first() =~= tables.drop_first().push(t));
        level_run_push(tables.drop_first(), t);
        assert(level_run(all) =~= level_run(tables) + t.run);
    }
}

/// Keys in the entries of ordered tables lie between the first and the last key of all.
pub proof fn level_run_bounds(tables: Seq<TableView>)
    requires
        disjoint(tables),
    ensures
        run::sorted(level_run(tables)),
        forall|i: int|
            0 <= i < level_run(tables).len() ==> tables.len() > 0 && key::le(
                tables[0].first(),
                (#[trigger] level_run(tables)[i]).0,
            ) && key::le(level_run(tables)[i].0, tables.last().last()),
    decreases tables.len(),
{
    broadcast use key::group_key_order;

    if tables.len() > 0 {
        let head = tables[0].run;
        let rest = tables.drop_first();
        assert forall|i: int| 0 <= i < rest.len() implies #[trigger] rest[i] == tables[i + 1] by {}
        level_run_bounds(rest);
        let all = level_run(tables);
        assert(all =~= head + level_run(rest));
        assert forall|i: int| 0 <= i < head.len() implies key::le(
            tables[0].first(),
            (#[trigger] head[i]).0,
        ) && key::le(head[i].0, tables[0].last()) by {}
        if rest.len() > 0 {
            assert(tables[0].last().lt(rest[0].first()));
            assert(rest.last() == tables.last());
            assert(tables[0].last().lt(tables.last().first()));
            assert(key::le(tables.last().first(), tables.last().last())) by {
                let t = tables.last();
                if t.run.len() > 1 {
                    assert(t.run[0].0.lt(t.run[t.run.len() - 1].0));
                }
            }
        }
        assert(key::le(tables[0].first(), tables[0].last())) by {
            if head.len() > 1 {
                assert(head[0].0.lt(head[head.len() - 1].0));
            }
        }
        assert forall|i: int| 0 <= i < all.len() implies key::le(
            tables[0].first(),
            (#[trigger] all[i]).0,
        ) && key::le(all[i].0, tables.last().last()) by {
            if i < head.len() {
                assert(all[i] == head[i]);
            } else {
                assert(all[i] == level_run(rest)[i - head.len()]);
            }
        }
        assert forall|i: int, j: int| 0 <= i < j < all.len() implies (#[trigger] all[i]).0.lt(
            (#[trigger] all[j]).0,
        ) by {
            if j < head.len() {
                assert(all[i] == head[i] && all[j] == head[j]);
            } else if i < head.len() {
                assert(all[i] == head[i] && all[j] == level_run(rest)[j - head.len()]);
            } else {
                assert(all[i] == level_run(rest)[i - head.len()] && all[j] == level_run(rest)[j
                    - head.len()]);
            }
        }
    }
}

/// **A level holds what its tables hold**: a key is in it exactly if some table has it, with the
/// entry of that table.
pub proof fn level_holds_its_tables(tables: Seq<TableView>, k: Seq<u8>)
    requires
        disjoint(tables),
    ensures
        run::run_map(level_run(tables)).contains_key(k) <==> exists|i: int|
            0 <= i < tables.len() && (#[trigger] tables[i]).entries().contains_key(k),
        forall|i: int|
            0 <= i < tables.len() && (#[trigger] tables[i]).entries().contains_key(k)
                ==> run::run_map(level_run(tables))[k] == tables[i].entries()[k],
    decreases tables.len(),
{
    broadcast use key::group_key_order;

    let s = level_run(tables);
    if tables.len() == 0 {
        run::run_map_empty(s);
    } else {
        let t = tables[0];
        let rest = tables.drop_first();
        assert(rest =~= tables.subrange(1, tables.len() as int));
        disjoint_part(tables, 1, tables.len() as int);
        level_run_bounds(tables);
        run::run_map_concat(t.run, level_run(rest));
        level_holds_its_tables(rest, k);
        assert forall|i: int| 0 <= i < rest.len() implies #[trigger] rest[i] == tables[i + 1] by {}
        if run::run_map(level_run(rest)).contains_key(k) {
            let i = choose|i: int|
                0 <= i < rest.len() && (#[trigger] rest[i]).entries().contains_key(k);
            assert(tables[i + 1].entries().contains_key(k));
            if t.entries().contains_key(k) {
                let a = run::run_map_find(t.run, k);
                let b = run::run_map_find(level_run(rest), k);
                assert(s[a].0.lt(s[t.run.len() + b].0));
            }
        }
        assert forall|i: int|
            0 <= i < tables.len() && (#[trigger] tables[i]).entries().contains_key(
                k,
            ) implies run::run_map(s).contains_key(k) && run::run_map(s)[k]
            == tables[i].entries()[k] by {
            if i > 0 {
                assert(rest[i - 1] == tables[i]);
            }
        }
    }
}

/// Some of the tables, those from `i` to before `j`, are in order too.
pub proof fn disjoint_part(tables: Seq<TableView>, i: int, j: int)
    requires
        disjoint(tables),
        0 <= i <= j <= tables.len(),
    ensures
        disjoint(tables.subrange(i, j)),
{
    let part = tables.subrange(i, j);
    assert forall|n: int| 0 <= n < part.len() implies #[trigger] part[n] == tables[n + i] by {}
}

/// Walks over sorted tables whose key ranges do not overlap. Only one table cursor exists at a
/// time.
pub struct SstConcatIterator {
    current: Option<SsTableIterator>,
    next_sst_idx: usize,
    sstables: Vec<Arc<SsTable>>,
}

impl SstConcatIterator {
    spec fn ahead(&self) -> Run<Seq<u8>> {
        let here = match self.current {
            Some(c) => c.remaining(),
            None => Seq::empty(),
        };
        here + level_run(table_views(self.sstables@).skip(self.next_sst_idx as int))
    }

    spec fn positioned(&self) -> bool {
        &&& forall|i: int| 0 <= i < self.sstables@.len() ==> (#[trigger] self.sstables@[i]).wf()
        &&& self.current matches Some(c) ==> c.inv()
        &&& self.current is None ==> self.next_sst_idx == self.sstables@.len()
        &&& self.next_sst_idx <= self.sstables@.len()
        &&& run::sorted(self.ahead())
    }

    /// Positions a cursor on the first entry of all.
    pub fn create_and_seek_to_first(sstables: Vec<Arc<SsTable>>) -> (r: Self)
        requires
            disjoint(table_views(sstables@)),
        ensures
            r.inv(),
            r.remaining() == level_run(table_views(sstables@)),
            r.active() == 1,
            forall|e: StorageError| !(#[trigger] r.can_fail(e)),
    {
        let ghost views = table_views(sstables@);
        proof {
            level_run_bounds(views);
            assert forall|i: int| 0 <= i < sstables@.len() implies (
            #[trigger] sstables@[i]).wf() by {
                assert(views[i].wf());
            }
            assert(views.skip(0) =~= views);
        }
        if sstables.len() == 0 {
            let r = SstConcatIterator { current: None, next_sst_idx: 0, sstables };
            assert(r.ahead() =~= level_run(views));
            return r;
        }
        let first = SsTableIterator::create_and_seek_to_first(Arc::clone(&sstables[0]));
        let mut iter = SstConcatIterator { current: Some(first), next_sst_idx: 1, sstables };
        proof {
            level_run_from(views, 0);
        }
        iter.move_until_valid();
        iter
    }

    /// How many tables start with a key that is not after `key`.
    fn tables_up_to(sstables: &Vec<Arc<SsTable>>, key: KeySlice<'_>) -> (n: usize)
        requires
            disjoint(table_views(sstables@)),
        ensures
            n <= sstables@.len(),
            forall|i: int|
                0 <= i < n ==> key::le((#[trigger] table_views(sstables@)[i]).first(), key.bytes()),
            forall|i: int|
                n <= i < sstables@.len() ==> key.bytes().lt(
                    (#[trigger] table_views(sstables@)[i]).first(),
                ),
    {
        let ghost views = table_views(sstables@);
        let mut low: usize = 0;
        let mut high: usize = sstables.len();
        while low < high
            invariant
                low <= high <= sstables@.len(),
                views == table_views(sstables@),
                disjoint(views),
                forall|i: int| 0 <= i < low ==> key::le((#[trigger] views[i]).first(), key.bytes()),
                forall|i: int|
                    high <= i < views.len() ==> key.bytes().lt((#[trigger] views[i]).first()),
            decreases high - low,
        {
            let mid: usize = low + (high - low) / 2;
            proof {
                assert(views[mid as int].wf());
            }
            let after: bool = bytes_less(key.raw_ref(), sstables[mid].first_key().raw_ref());
            proof {
                first_keys_increase(views);
                broadcast use key::group_key_order;

                assert(after == key.bytes().lt(views[mid as int].first()));
            }
            if after {
                high = mid;
            } else {
                low = mid + 1;
            }
        }
        low
    }

    /// Positions a cursor on the first entry of all whose key is not before `key`.
    pub fn create_and_seek_to_key(sstables: Vec<Arc<SsTable>>, key: KeySlice<'_>) -> (r: Self)
        requires
            disjoint(table_views(sstables@)),
        ensures
            r.inv(),
            r.remaining() == bound::seek(level_run(table_views(sstables@)), key.bytes()),
            r.active() == 1,
            forall|e: StorageError| !(#[trigger] r.can_fail(e)),
    {
        let ghost views = table_views(sstables@);
        proof {
            level_run_bounds(views);
            assert forall|i: int| 0 <= i < sstables@.len() implies (
            #[trigger] sstables@[i]).wf() by {
                assert(views[i].wf());
            }
        }
        if sstables.len() == 0 {
            let n: usize = sstables.len();
            let r = SstConcatIterator { current: None, next_sst_idx: n, sstables };
            assert(r.ahead() =~= bound::seek(level_run(views), key.bytes()));
            return r;
        }
        let up_to: usize = Self::tables_up_to(&sstables, key);
        let idx: usize = if up_to == 0 {
            0
        } else {
            up_to - 1
        };
        let found = SsTableIterator::create_and_seek_to_key(Arc::clone(&sstables[idx]), key);
        proof {
            seek_in_level(views, key.bytes(), idx as int);
            bound::seek_sorted(level_run(views), key.bytes());
        }
        let mut iter = SstConcatIterator { current: Some(found), next_sst_idx: idx + 1, sstables };
        iter.move_until_valid();
        iter
    }

    /// Goes on to the next tables while the current one is exhausted.
    fn move_until_valid(&mut self)
        requires
            old(self).positioned(),
        ensures
            final(self).inv(),
            final(self).remaining() == old(self).ahead(),
    {
        loop
            invariant
                self.positioned(),
                self.ahead() == old(self).ahead(),
            ensures
                self.inv(),
                self.ahead() == old(self).ahead(),
            decreases
                    self.sstables@.len() - self.next_sst_idx + if self.current is Some {
                        1int
                    } else {
                        0
                    },
        {
            let valid: bool = match &self.current {
                Some(c) => c.is_valid(),
                None => true,
            };
            if valid {
                break;
            }
            let ghost before = *self;
            if self.next_sst_idx >= self.sstables.len() {
                self.current = None;
                assert(self.ahead() =~= before.ahead());
            } else {
                proof {
                    level_run_from(table_views(self.sstables@), self.next_sst_idx as int);
                }
                let next = SsTableIterator::create_and_seek_to_first(
                    Arc::clone(&self.sstables[self.next_sst_idx]),
                );
                self.current = Some(next);
                self.next_sst_idx = self.next_sst_idx + 1;
                assert(self.ahead() =~= before.ahead());
            }
        }
    }
}

/// The first keys of ordered tables increase.
proof fn first_keys_increase(tables: Seq<TableView>)
    requires
        disjoint(tables),
    ensures
        forall|i: int, j: int|
            0 <= i < j < tables.len() ==> (#[trigger] tables[i]).first().lt(
                (#[trigger] tables[j]).first(),
            ),
{
    broadcast use key::group_key_order;

    assert forall|i: int, j: int| 0 <= i < j < tables.len() implies (
    #[trigger] tables[i]).first().lt((#[trigger] tables[j]).first()) by {
        let s = tables[i].run;
        assert(tables[i].wf());
        if s.len() > 1 {
            assert(s[0].0.lt(s[s.len() - 1].0));
        }
    }
}

/// Seeking in ordered tables is seeking in the last one that starts up to the key, with the tables
/// after it following whole.
proof fn seek_in_level(tables: Seq<TableView>, k: Seq<u8>, idx: int)
    requires
        disjoint(tables),
        0 <= idx < tables.len(),
        idx > 0 ==> key::le(tables[idx].first(), k),
        forall|i: int| idx < i < tables.len() ==> k.lt((#[trigger] tables[i]).first()),
    ensures
        bound::seek(level_run(tables), k) == bound::seek(tables[idx].run, k) + level_run(
            tables.skip(idx + 1),
        ),
{
    broadcast use key::group_key_order;

    let before = level_run(tables.take(idx));
    let here = tables[idx].run;
    let after = level_run(tables.skip(idx + 1));
    level_run_split(tables, idx);
    level_run_from(tables, idx);
    assert(tables.take(idx) =~= tables.subrange(0, idx));
    assert(tables.skip(idx + 1) =~= tables.subrange(idx + 1, tables.len() as int));
    disjoint_part(tables, 0, idx);
    disjoint_part(tables, idx + 1, tables.len() as int);
    level_run_bounds(tables.take(idx));
    level_run_bounds(tables.skip(idx + 1));
    assert forall|i: int| 0 <= i < before.len() implies (#[trigger] before[i]).0.lt(k) by {
        assert(tables.take(idx).last() == tables[idx - 1]);
        assert(tables[idx - 1].last().lt(tables[idx].first()));
    }
    assert forall|i: int| 0 <= i < after.len() implies !(#[trigger] after[i]).0.lt(k) by {
        assert(tables.skip(idx + 1)[0] == tables[idx + 1]);
    }
    bound::seek_past(before, here + after, k);
    bound::seek_followed(here, after, k);
    assert(level_run(tables) =~= before + (here + after));
}

impl StorageIterator for SstConcatIterator {
    type Keys = UserKeys;

    closed spec fn inv(&self) -> bool {
        &&& self.positioned()
        &&& self.current matches Some(c) ==> c.remaining().len() > 0
    }

    closed spec fn remaining(&self) -> Run<Seq<u8>> {
        self.ahead()
    }

    closed spec fn may_advance(&self) -> bool {
        self.current is Some
    }

    closed spec fn can_fail(&self, e: StorageError) -> bool {
        false
    }

    open spec fn steady(&self) -> bool {
        true
    }

    proof fn inv_facts(&self) {
        if self.current is None {
            assert(self.ahead().len() == 0) by {
                assert(table_views(self.sstables@).skip(self.next_sst_idx as int).len() == 0);
            }
        }
    }

    fn is_valid(&self) -> (r: bool) {
        proof {
            self.inv_facts();
        }
        self.current.is_some()
    }

    fn key(&self) -> (r: KeySlice<'_>) {
        proof {
            self.inv_facts();
        }
        self.current.as_ref().unwrap().key()
    }

    fn value(&self) -> (r: &[u8]) {
        proof {
            self.inv_facts();
        }
        self.current.as_ref().unwrap().value()
    }

    fn next(&mut self) -> (r: Result<(), StorageError>)
        ensures
            r is Ok,
    {
        match &mut self.current {
            Some(c) => {
                c.next()?;
            },
            None => {},
        }
        proof {
            assert(self.ahead() =~= old(self).ahead().drop_first());
        }
        self.move_until_valid();
        Ok(())
    }

    fn num_active_iterators(&self) -> (r: usize) {
        1
    }
}

} // verus!
