//! Range scans.

use vstd::prelude::*;
use std::ops::Bound;
use std::sync::Arc;
use crate::bound;
use crate::bound::map_bound;
use crate::error::StorageError;
use crate::iterators::concat_iterator;
use crate::iterators::concat_iterator::SstConcatIterator;
use crate::iterators::merge_iterator;
use crate::iterators::merge_iterator::MergeIterator;
use crate::iterators::two_merge_iterator;
use crate::iterators::two_merge_iterator::TwoMergeIterator;
use crate::iterators::StorageIterator;
use crate::key::{bytes_same, KeySlice, UserKeys};
use crate::lsm_iterator;
use crate::lsm_iterator::{FusedIterator, LsmIterator};
use crate::lsm_storage::model;
use crate::lsm_storage::model::StateView;
use crate::lsm_storage::sources;
use crate::lsm_storage::{range_overlap, LsmStorageInner, LsmStorageState};
use crate::mem_table;
use crate::mem_table::{MemTableIterator, MemView};
use crate::run;
use crate::run::{Entries, Run};
use crate::table::iterator::SsTableIterator;
use crate::table::{SsTable, TableView};

verus! {

/// Read the nesting as merge(merge(memtables, L0), levels/tiers). Each TwoMergeIterator prefers its
/// left input on equal keys; each MergeIterator prefers its earlier input. Together they encode the
/// precedence of the sources.
pub type MergeTree<M, A, B> = TwoMergeIterator<
    TwoMergeIterator<MergeIterator<M>, MergeIterator<A>>,
    MergeIterator<B>,
>;

/// The tree of a store's own cursors.
pub type LsmIteratorInner<'a> = MergeTree<MemTableIterator<'a>, SsTableIterator, SstConcatIterator>;

/// What the tree of cursors shows.
pub open spec fn tree_run<
    M: StorageIterator<Keys = UserKeys>,
    A: StorageIterator<Keys = UserKeys>,
    B: StorageIterator<Keys = UserKeys>,
>(memtable_iters: Seq<M>, table_iters: Seq<A>, level_iters: Seq<B>) -> Run<Seq<u8>> {
    run::merge2(
        run::merge2(
            run::merge_all(merge_iterator::runs_of(memtable_iters)),
            run::merge_all(merge_iterator::runs_of(table_iters)),
        ),
        run::merge_all(merge_iterator::runs_of(level_iters)),
    )
}

/// Some cursor can fail with the error.
pub open spec fn any_can_fail<I: StorageIterator>(iters: Seq<I>, e: StorageError) -> bool {
    exists|i: int| 0 <= i < iters.len() && (#[trigger] iters[i]).can_fail(e)
}

/// How many cursors are active below the tree.
pub open spec fn tree_active<
    M: StorageIterator<Keys = UserKeys>,
    A: StorageIterator<Keys = UserKeys>,
    B: StorageIterator<Keys = UserKeys>,
>(memtable_iters: Seq<M>, table_iters: Seq<A>, level_iters: Seq<B>) -> nat {
    merge_iterator::total_active(memtable_iters) + merge_iterator::total_active(table_iters)
        + merge_iterator::total_active(level_iters)
}

/// Nothing has to be moved before the tree shows a live entry: no merge starts on a tie, and the
/// first entry is not a tombstone within the bound.
pub open spec fn starts_ready<
    M: StorageIterator<Keys = UserKeys>,
    A: StorageIterator<Keys = UserKeys>,
    B: StorageIterator<Keys = UserKeys>,
>(
    memtable_iters: Seq<M>,
    table_iters: Seq<A>,
    level_iters: Seq<B>,
    upper: Bound<Seq<u8>>,
) -> bool {
    let a = run::merge_all(merge_iterator::runs_of(memtable_iters));
    let b = run::merge_all(merge_iterator::runs_of(table_iters));
    let c = run::merge_all(merge_iterator::runs_of(level_iters));
    &&& !two_merge_iterator::tied(a, b)
    &&& !two_merge_iterator::tied(run::merge2(a, b), c)
    &&& !lsm_iterator::starts_hidden(run::merge2(run::merge2(a, b), c), upper)
}

/// **Cursors whose first keys differ are ready at once**: if no two of the three merges start with
/// the same key, and each starts with a value or not at all, nothing has to be moved before an
/// entry is shown.
pub proof fn different_starts_are_ready<
    M: StorageIterator<Keys = UserKeys>,
    A: StorageIterator<Keys = UserKeys>,
    B: StorageIterator<Keys = UserKeys>,
>(
    memtable_iters: Seq<M>,
    table_iters: Seq<A>,
    level_iters: Seq<B>,
    upper: Bound<Seq<u8>>,
)
    requires
        ({
            let a = run::merge_all(merge_iterator::runs_of(memtable_iters));
            let b = run::merge_all(merge_iterator::runs_of(table_iters));
            let c = run::merge_all(merge_iterator::runs_of(level_iters));
            &&& a.len() > 0 && b.len() > 0 ==> a[0].0 != b[0].0
            &&& a.len() > 0 && c.len() > 0 ==> a[0].0 != c[0].0
            &&& b.len() > 0 && c.len() > 0 ==> b[0].0 != c[0].0
            &&& a.len() > 0 ==> a[0].1.len() > 0
            &&& b.len() > 0 ==> b[0].1.len() > 0
            &&& c.len() > 0 ==> c[0].1.len() > 0
        }),
    ensures
        starts_ready(memtable_iters, table_iters, level_iters, upper),
{
    let a = run::merge_all(merge_iterator::runs_of(memtable_iters));
    let b = run::merge_all(merge_iterator::runs_of(table_iters));
    let c = run::merge_all(merge_iterator::runs_of(level_iters));
    let ab = run::merge2(a, b);
    assert(ab.len() > 0 ==> (a.len() > 0 && ab[0] == a[0]) || (b.len() > 0 && ab[0] == b[0]));
    let all = run::merge2(ab, c);
    assert(all.len() > 0 ==> (ab.len() > 0 && all[0] == ab[0]) || (c.len() > 0 && all[0] == c[0]));
}

/// How many cursors a scan reads: one for each memtable, one for each L0 table that the range
/// overlaps, and one for each level or tier.
pub open spec fn scan_cursors(
    s: StateView,
    lower: Bound<Seq<u8>>,
    upper: Bound<Seq<u8>>,
) -> nat {
    1 + s.imm_memtables.len() + sources::overlapping(
        s.tables(s.l0_sstables),
        lower,
        upper,
    ).len() + s.levels.len()
}

/// **A scan reads one cursor for each source**: one for each memtable, one for each level or tier,
/// and one for each L0 table, unless the bounds leave it out.
pub proof fn scan_reads_each_source_once(
    s: StateView,
    lower: Bound<Seq<u8>>,
    upper: Bound<Seq<u8>>,
)
    ensures
        s.l0_sstables.len() == 0 ==> scan_cursors(s, lower, upper) == s.sources().len(),
        s.l0_sstables.len() > 0 ==> scan_cursors(s, lower, upper) == scan_cursors(
            (StateView { l0_sstables: s.l0_sstables.drop_last(), ..s }),
            lower,
            upper,
        ) + if sources::overlaps(s.sstables[s.l0_sstables.last()], lower, upper) {
            1int
        } else {
            0
        },
{
    let pred = |t: TableView| sources::overlaps(t, lower, upper);
    let tables = s.tables(s.l0_sstables);
    if s.l0_sstables.len() == 0 {
        assert(tables =~= Seq::empty());
        reveal(Seq::filter);
    } else {
        let n = tables.len() - 1;
        let t = StateView { l0_sstables: s.l0_sstables.drop_last(), ..s };
        assert(t.tables(t.l0_sstables) =~= tables.take(n));
        assert(tables.take(n + 1) =~= tables);
        sources::filter_step(tables, n, pred);
    }
}

/// Every cursor is one active cursor, and stays so.
pub open spec fn singles<I: StorageIterator>(iters: Seq<I>) -> bool {
    forall|i: int| 0 <= i < iters.len() ==> (#[trigger] iters[i]).active() == 1 && iters[i].steady()
}

/// Merges positioned cursors on memtables, on L0 tables and on levels, and shows the live entries
/// up to a bound. The cursors may be ones that can fail.
pub fn merge_scan<
    M: StorageIterator<Keys = UserKeys>,
    A: StorageIterator<Keys = UserKeys>,
    B: StorageIterator<Keys = UserKeys>,
>(
    memtable_iters: Vec<M>,
    table_iters: Vec<A>,
    level_iters: Vec<B>,
    upper: Bound<&[u8]>,
) -> (r: Result<FusedIterator<LsmIterator<MergeTree<M, A, B>>>, StorageError>)
    requires
        forall|i: int| 0 <= i < memtable_iters@.len() ==> (#[trigger] memtable_iters@[i]).inv(),
        forall|i: int| 0 <= i < table_iters@.len() ==> (#[trigger] table_iters@[i]).inv(),
        forall|i: int| 0 <= i < level_iters@.len() ==> (#[trigger] level_iters@[i]).inv(),
    ensures
        r matches Ok(iter) ==> {
            &&& iter.inv()
            &&& !iter.errored()
            &&& iter.remaining() == lsm_iterator::visible(
                tree_run(memtable_iters@, table_iters@, level_iters@),
                bound::slice_bound(upper),
            )
            &&& forall|e: StorageError| #[trigger]
                iter.can_fail(e) == (any_can_fail(memtable_iters@, e) || any_can_fail(
                    table_iters@,
                    e,
                ) || any_can_fail(level_iters@, e))
            &&& starts_ready(
                memtable_iters@,
                table_iters@,
                level_iters@,
                bound::slice_bound(upper),
            ) ==> iter.active() == tree_active(memtable_iters@, table_iters@, level_iters@)
            &&& merge_iterator::all_steady(memtable_iters@) && merge_iterator::all_steady(
                table_iters@,
            ) && merge_iterator::all_steady(level_iters@) ==> iter.steady() && iter.active()
                == tree_active(memtable_iters@, table_iters@, level_iters@)
        },
        starts_ready(memtable_iters@, table_iters@, level_iters@, bound::slice_bound(upper))
            ==> r is Ok,
        r matches Err(e) ==> any_can_fail(memtable_iters@, e) || any_can_fail(table_iters@, e)
            || any_can_fail(level_iters@, e),
{
    let memtable_iter = MergeIterator::create(memtable_iters);
    let l0_iter = MergeIterator::create(table_iters);
    let level_iter = MergeIterator::create(level_iters);
    // Left input wins ties: memory > L0 > levels/tiers. Tombstones stay through these merges so
    // that they suppress older copies of the same key.
    let iter = TwoMergeIterator::create(memtable_iter, l0_iter)?;
    let iter = TwoMergeIterator::create(iter, level_iter)?;
    // LsmIterator enforces the upper bound and hides winning tombstones. FusedIterator makes
    // exhaustion harmless and iteration errors permanent.
    Ok(FusedIterator::new(LsmIterator::new(iter, map_bound(upper))?))
}

/// What a memory cursor shows.
proof fn memory_cursor_shows(
    m: MemView,
    lower: Bound<Seq<u8>>,
    upper: Bound<Seq<u8>>,
)
    requires
        model::memtable_wf(m),
    ensures
        model::agree(
            run::run_map(mem_table::cursor_run(bound::range_of(m.entries, lower, upper))),
            m.entries,
            lower,
            upper,
        ),
        model::starts_at(
            run::run_map(mem_table::cursor_run(bound::range_of(m.entries, lower, upper))),
            lower,
        ),
{
    let range = bound::range_of(m.entries, lower, upper);
    assert(range.dom().subset_of(m.entries.dom()));
    vstd::set_lib::lemma_set_subset_finite(m.entries.dom(), range.dom());
    run::listing_exists(range);
}

/// What a scan shows of the merged entries is what the store holds alive between the bounds.
proof fn visible_is_range(
    s: Run<Seq<u8>>,
    m: Entries,
    lower: Bound<Seq<u8>>,
    upper: Bound<Seq<u8>>,
)
    requires
        run::sorted(s),
        model::agree(run::run_map(s), m, lower, upper),
        model::starts_at(run::run_map(s), lower),
    ensures
        lsm_iterator::visible(s, upper) == run::listing(lsm_iterator::live_range(m, lower, upper)),
{
    lsm_iterator::visible_is_live_range(s, upper);
    let shown = lsm_iterator::live_range(run::run_map(s), Bound::Unbounded, upper);
    let wanted = lsm_iterator::live_range(m, lower, upper);
    assert forall|k: Seq<u8>| shown.contains_key(k) <==> wanted.contains_key(k) by {
        if bound::within(lower, upper, k) {
        }
    }
    assert forall|k: Seq<u8>| #[trigger] shown.contains_key(k) implies shown[k] == wanted[k] by {
        assert(bound::within(lower, upper, k));
    }
    assert(shown =~= wanted);
    run::listing_of_run(lsm_iterator::visible(s, upper));
}

impl LsmStorageState {
    /// A cursor on a table, moved to the lower bound.
    fn table_cursor(table: Arc<SsTable>, lower: Bound<&[u8]>) -> (r: SsTableIterator)
        requires
            table.wf(),
        ensures
            r.inv(),
            r.remaining() == bound::from_bound(table@.run, bound::slice_bound(lower)),
            r.active() == 1,
            forall|e: StorageError| !(#[trigger] r.can_fail(e)),
    {
        match lower {
            Bound::Included(key) => SsTableIterator::create_and_seek_to_key(
                table,
                KeySlice::from_slice(key),
            ),
            Bound::Excluded(key) => {
                // Seek lands at >= key. For an exclusive lower bound, advance once only if it
                // landed exactly on the boundary.
                let mut iter = SsTableIterator::create_and_seek_to_key(
                    table,
                    KeySlice::from_slice(key),
                );
                if iter.is_valid() && bytes_same(iter.key().raw_ref(), key) {
                    let moved = iter.next();
                }
                iter
            },
            Bound::Unbounded => SsTableIterator::create_and_seek_to_first(table),
        }
    }

    /// A cursor on the tables of a level, moved to the lower bound.
    fn level_cursor(tables: Vec<Arc<SsTable>>, lower: Bound<&[u8]>) -> (r: SstConcatIterator)
        requires
            concat_iterator::disjoint(concat_iterator::table_views(tables@)),
        ensures
            r.inv(),
            r.remaining() == bound::from_bound(
                concat_iterator::level_run(concat_iterator::table_views(tables@)),
                bound::slice_bound(lower),
            ),
            r.active() == 1,
            forall|e: StorageError| !(#[trigger] r.can_fail(e)),
    {
        match lower {
            Bound::Included(key) => SstConcatIterator::create_and_seek_to_key(
                tables,
                KeySlice::from_slice(key),
            ),
            Bound::Excluded(key) => {
                let mut iter = SstConcatIterator::create_and_seek_to_key(
                    tables,
                    KeySlice::from_slice(key),
                );
                if iter.is_valid() && bytes_same(iter.key().raw_ref(), key) {
                    proof {
                        iter.inv_facts();
                    }
                    let moved = iter.next();
                }
                iter
            },
            Bound::Unbounded => SstConcatIterator::create_and_seek_to_first(tables),
        }
    }

    /// Bounded memory cursors. Input order is part of correctness: the current memtable wins ties,
    /// then immutable memtables newest to oldest.
    fn memory_cursors(&self, lower: Bound<&[u8]>, upper: Bound<&[u8]>) -> (r: Vec<
        MemTableIterator<'_>,
    >)
        requires
            self@.wf(),
        ensures
            sources::cursors_for(
                r@,
                self@.memory_sources(),
                bound::slice_bound(lower),
                bound::slice_bound(upper),
            ),
            singles(r@),
            r@.len() == 1 + self@.imm_memtables.len(),
    {
        let ghost lo = bound::slice_bound(lower);
        let ghost hi = bound::slice_bound(upper);
        let ghost held = self@.memory_sources();
        let mut iters: Vec<MemTableIterator<'_>> = Vec::new();
        proof {
            sources::no_cursors::<MemTableIterator<'_>>(lo, hi);
            memory_cursor_shows(self@.memtable, lo, hi);
        }
        let iter = self.memtable.scan(lower, upper);
        proof {
            assert(seq![self@.memtable.entries] =~= Seq::<Entries>::empty().push(
                self@.memtable.entries,
            ));
            assert(iters@ =~= Seq::<MemTableIterator<'_>>::empty());
            sources::cursors_push(iters@, iter, Seq::empty(), self@.memtable.entries, lo, hi);
            assert(held.take(1) =~= seq![self@.memtable.entries]);
        }
        iters.push(iter);
        let mut i: usize = 0;
        while i < self.imm_memtables.len()
            invariant
                i <= self.imm_memtables@.len(),
                self@.wf(),
                lo == bound::slice_bound(lower),
                hi == bound::slice_bound(upper),
                held == self@.memory_sources(),
                sources::cursors_for(iters@, held.take(i + 1), lo, hi),
                singles(iters@),
                iters@.len() == i + 1,
            decreases self.imm_memtables@.len() - i,
        {
            let ghost m = self@.imm_memtables[i as int];
            proof {
                assert(model::memtable_wf(m));
                memory_cursor_shows(m, lo, hi);
            }
            let iter = self.imm_memtables[i].scan(lower, upper);
            proof {
                assert(held.take(i + 2) =~= held.take(i + 1).push(m.entries));
                sources::cursors_push(iters@, iter, held.take(i + 1), m.entries, lo, hi);
            }
            iters.push(iter);
            i = i + 1;
        }
        assert(held.take(i + 1) =~= held);
        iters
    }

    /// One cursor per overlapping L0 table, again newest first.
    fn l0_cursors(&self, lower: Bound<&[u8]>, upper: Bound<&[u8]>) -> (r: Vec<SsTableIterator>)
        requires
            self@.wf(),
        ensures
            sources::cursors_for(
                r@,
                self@.l0_sources(),
                bound::slice_bound(lower),
                bound::slice_bound(upper),
            ),
            singles(r@),
            r@.len() == sources::overlapping(
                self@.tables(self@.l0_sstables),
                bound::slice_bound(lower),
                bound::slice_bound(upper),
            ).len(),
    {
        let ghost lo = bound::slice_bound(lower);
        let ghost hi = bound::slice_bound(upper);
        let ghost held = self@.l0_sources();
        let ghost tables = self@.tables(self@.l0_sstables);
        let mut iters: Vec<SsTableIterator> = Vec::new();
        proof {
            sources::no_cursors::<SsTableIterator>(lo, hi);
            assert(held.take(0) =~= Seq::empty());
            reveal(Seq::filter);
        }
        let mut i: usize = 0;
        while i < self.l0_sstables.len()
            invariant
                i <= self.l0_sstables@.len(),
                self@.wf(),
                lo == bound::slice_bound(lower),
                hi == bound::slice_bound(upper),
                held == self@.l0_sources(),
                tables == self@.tables(self@.l0_sstables),
                sources::cursors_for(iters@, held.take(i as int), lo, hi),
                singles(iters@),
                iters@.len() == sources::overlapping(tables.take(i as int), lo, hi).len(),
            decreases self.l0_sstables@.len() - i,
        {
            let id: usize = self.l0_sstables[i];
            assert(self@.has_table(self@.l0_sstables[i as int]));
            let table = self.table(id);
            let ghost t = table@;
            proof {
                assert(held.take(i + 1) =~= held.take(i as int).push(t.entries()));
                sources::table_range(t);
                sources::filter_step(
                    tables,
                    i as int,
                    |t: TableView| sources::overlaps(t, lo, hi),
                );
            }
            if range_overlap(lower, upper, table.first_key(), table.last_key()) {
                let iter = Self::table_cursor(table, lower);
                proof {
                    sources::from_bound_shows(t.run, lo, hi);
                    sources::cursors_push(
                        iters@,
                        iter,
                        held.take(i as int),
                        t.entries(),
                        lo,
                        hi,
                    );
                }
                iters.push(iter);
            } else {
                proof {
                    sources::cursors_skip(iters@, held.take(i as int), t.entries(), lo, hi);
                }
            }
            i = i + 1;
        }
        assert(held.take(i as int) =~= held);
        assert(tables.take(i as int) =~= tables);
        iters
    }

    /// The tables of a level that overlap the range.
    pub fn level_tables(
        &self,
        ids: &Vec<usize>,
        lower: Bound<&[u8]>,
        upper: Bound<&[u8]>,
    ) -> (r: Vec<Arc<SsTable>>)
        requires
            self@.level_wf(ids@),
        ensures
            sources::kept_of(
                concat_iterator::table_views(r@),
                self@.tables(ids@),
                ids@.len() as int,
                bound::slice_bound(lower),
                bound::slice_bound(upper),
            ),
            concat_iterator::table_views(r@) == sources::overlapping(
                self@.tables(ids@),
                bound::slice_bound(lower),
                bound::slice_bound(upper),
            ),
    {
        let ghost lo = bound::slice_bound(lower);
        let ghost hi = bound::slice_bound(upper);
        let ghost all = self@.tables(ids@);
        let mut kept: Vec<Arc<SsTable>> = Vec::new();
        proof {
            sources::nothing_kept(all, lo, hi);
            assert(concat_iterator::table_views(kept@) =~= Seq::empty());
            reveal(Seq::filter);
            assert(sources::overlapping(all.take(0), lo, hi) =~= Seq::empty());
        }
        let mut i: usize = 0;
        while i < ids.len()
            invariant
                i <= ids@.len(),
                self@.level_wf(ids@),
                lo == bound::slice_bound(lower),
                hi == bound::slice_bound(upper),
                all == self@.tables(ids@),
                sources::kept_of(concat_iterator::table_views(kept@), all, i as int, lo, hi),
                concat_iterator::table_views(kept@) == sources::overlapping(
                    all.take(i as int),
                    lo,
                    hi,
                ),
            decreases ids@.len() - i,
        {
            let id: usize = ids[i];
            assert(self@.has_table(ids@[i as int]));
            let table = self.table(id);
            let ghost before = concat_iterator::table_views(kept@);
            let keep: bool = range_overlap(lower, upper, table.first_key(), table.last_key());
            proof {
                sources::table_range(table@);
                assert(all[i as int] == table@);
                sources::level_step(before, all, i as int, keep, lo, hi);
                sources::filter_step(all, i as int, |t: TableView| sources::overlaps(t, lo, hi));
            }
            if keep {
                kept.push(table);
                assert(concat_iterator::table_views(kept@) =~= before.push(all[i as int]));
            }
            i = i + 1;
        }
        assert(all.take(i as int) =~= all);
        kept
    }

    /// A cursor for each level or tier: concatenate within each run of tables, and let the caller
    /// merge the runs in their precedence order.
    fn level_cursors(&self, lower: Bound<&[u8]>, upper: Bound<&[u8]>) -> (r: Vec<
        SstConcatIterator,
    >)
        requires
            self@.wf(),
        ensures
            sources::cursors_for(
                r@,
                self@.level_sources(),
                bound::slice_bound(lower),
                bound::slice_bound(upper),
            ),
            singles(r@),
            r@.len() == self@.levels.len(),
    {
        let ghost lo = bound::slice_bound(lower);
        let ghost hi = bound::slice_bound(upper);
        let ghost held = self@.level_sources();
        let mut iters: Vec<SstConcatIterator> = Vec::new();
        proof {
            sources::no_cursors::<SstConcatIterator>(lo, hi);
            assert(held.take(0) =~= Seq::empty());
        }
        let mut i: usize = 0;
        while i < self.levels.len()
            invariant
                i <= self.levels@.len(),
                self@.wf(),
                lo == bound::slice_bound(lower),
                hi == bound::slice_bound(upper),
                held == self@.level_sources(),
                sources::cursors_for(iters@, held.take(i as int), lo, hi),
                singles(iters@),
                iters@.len() == i,
            decreases self.levels@.len() - i,
        {
            let ghost ids = self@.levels[i as int].1;
            assert(self@.level_wf(ids));
            let kept = self.level_tables(&self.levels[i].1, lower, upper);
            let ghost views = concat_iterator::table_views(kept@);
            let iter = Self::level_cursor(kept, lower);
            proof {
                assert(self@.tables(ids).take(ids.len() as int) =~= self@.tables(ids));
                assert(held.take(i + 1) =~= held.take(i as int).push(held[i as int]));
                concat_iterator::level_run_bounds(views);
                sources::from_bound_shows(concat_iterator::level_run(views), lo, hi);
                sources::cursors_push(
                    iters@,
                    iter,
                    held.take(i as int),
                    held[i as int],
                    lo,
                    hi,
                );
            }
            iters.push(iter);
            i = i + 1;
        }
        assert(held.take(i as int) =~= held);
        iters
    }

    /// Create an iterator over a range of keys. A scan constructs a tree of cursors; the caller's
    /// `next()` drives the merging on demand.
    pub fn scan(&self, lower: Bound<&[u8]>, upper: Bound<&[u8]>) -> (r: Result<
        FusedIterator<LsmIterator<LsmIteratorInner<'_>>>,
        StorageError,
    >)
        requires
            self@.wf(),
        ensures
            r is Ok,
            r matches Ok(iter) ==> {
                &&& iter.inv()
                &&& !iter.errored()
                &&& iter.remaining() == run::listing(
                    lsm_iterator::live_range(
                        self@.contents(),
                        bound::slice_bound(lower),
                        bound::slice_bound(upper),
                    ),
                )
                &&& forall|e: StorageError| !(#[trigger] iter.can_fail(e))
                &&& iter.steady()
                &&& iter.active() == scan_cursors(
                    self@,
                    bound::slice_bound(lower),
                    bound::slice_bound(upper),
                )
            },
    {
        let ghost lo = bound::slice_bound(lower);
        let ghost hi = bound::slice_bound(upper);
        let memtable_iters = self.memory_cursors(lower, upper);
        let table_iters = self.l0_cursors(lower, upper);
        let level_iters = self.level_cursors(lower, upper);
        proof {
            merge_iterator::total_active_of_singles(memtable_iters@);
            merge_iterator::total_active_of_singles(table_iters@);
            merge_iterator::total_active_of_singles(level_iters@);
            sources::merge_shows(memtable_iters@);
            sources::merge_shows(table_iters@);
            sources::merge_shows(level_iters@);
        }
        proof {
            let a = run::merge_all(merge_iterator::runs_of(memtable_iters@));
            let b = run::merge_all(merge_iterator::runs_of(table_iters@));
            let c = run::merge_all(merge_iterator::runs_of(level_iters@));
            run::merge2_is_overlay(a, b);
            run::merge2_is_overlay(run::merge2(a, b), c);
            let (ma, mb, mc) = (
                run::overlay_all(self@.memory_sources()),
                run::overlay_all(self@.l0_sources()),
                run::overlay_all(self@.level_sources()),
            );
            model::agree_overlay(run::run_map(a), ma, run::run_map(b), mb, lo, hi);
            model::agree_overlay(
                run::overlay(run::run_map(a), run::run_map(b)),
                run::overlay(ma, mb),
                run::run_map(c),
                mc,
                lo,
                hi,
            );
            run::overlay_all_concat(self@.memory_sources(), self@.l0_sources());
            run::overlay_all_concat(
                self@.memory_sources() + self@.l0_sources(),
                self@.level_sources(),
            );
            visible_is_range(run::merge2(run::merge2(a, b), c), self@.contents(), lo, hi);
        }
        merge_scan(memtable_iters, table_iters, level_iters, upper)
    }
}

impl LsmStorageInner {
    /// Create an iterator over a range of keys.
    pub fn scan(&self, lower: Bound<&[u8]>, upper: Bound<&[u8]>) -> (r: Result<
        FusedIterator<LsmIterator<LsmIteratorInner<'_>>>,
        StorageError,
    >)
        requires
            self@.state.wf(),
        ensures
            r is Ok,
            r matches Ok(iter) ==> {
                &&& iter.inv()
                &&& !iter.errored()
                &&& iter.remaining() == run::listing(
                    lsm_iterator::live_range(
                        self@.contents(),
                        bound::slice_bound(lower),
                        bound::slice_bound(upper),
                    ),
                )
                &&& forall|e: StorageError| !(#[trigger] iter.can_fail(e))
                &&& iter.steady()
                &&& iter.active() == scan_cursors(
                    self@.state,
                    bound::slice_bound(lower),
                    bound::slice_bound(upper),
                )
            },
    {
        self.state.scan(lower, upper)
    }
}

} // verus!
