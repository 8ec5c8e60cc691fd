//! Cursors on the sources of a store, and what they show together.

use vstd::prelude::*;
use std::ops::Bound;
use std::sync::Arc;
use crate::bound;
use crate::error::StorageError;
use crate::iterators::concat_iterator;
use crate::iterators::merge_iterator;
use crate::iterators::StorageIterator;
use crate::key;
use crate::key::{KeyModel, UserKeys};
use crate::lsm_storage::model;
use crate::lsm_storage::LsmStorageState;
use crate::run;
use crate::run::{Entries, Run};
use crate::table;
use crate::table::{SsTable, TableView};

verus! {

/// What cursors show together, the first on top.
pub open spec fn shown<I: StorageIterator<Keys = UserKeys>>(iters: Seq<I>) -> Entries {
    run::overlay_all(run::run_maps(merge_iterator::runs_of(iters)))
}

/// Positioned cursors that cannot fail, start at the lower bound, and show between the bounds
/// what the sources hold.
pub open spec fn cursors_for<I: StorageIterator<Keys = UserKeys>>(
    iters: Seq<I>,
    sources: Seq<Entries>,
    lower: Bound<Seq<u8>>,
    upper: Bound<Seq<u8>>,
) -> bool {
    &&& forall|i: int| 0 <= i < iters.len() ==> (#[trigger] iters[i]).inv()
    &&& forall|i: int, e: StorageError|
        0 <= i < iters.len() ==> !(#[trigger] iters[i].can_fail(e))
    &&& model::agree(shown(iters), run::overlay_all(sources), lower, upper)
    &&& model::starts_at(shown(iters), lower)
}

pub proof fn no_cursors<I: StorageIterator<Keys = UserKeys>>(
    lower: Bound<Seq<u8>>,
    upper: Bound<Seq<u8>>,
)
    ensures
        cursors_for(Seq::<I>::empty(), Seq::empty(), lower, upper),
{
    assert(run::run_maps(merge_iterator::runs_of(Seq::<I>::empty())) =~= Seq::empty());
}

/// One more cursor, for one more source.
pub proof fn cursors_push<I: StorageIterator<Keys = UserKeys>>(
    iters: Seq<I>,
    iter: I,
    sources: Seq<Entries>,
    source: Entries,
    lower: Bound<Seq<u8>>,
    upper: Bound<Seq<u8>>,
)
    requires
        cursors_for(iters, sources, lower, upper),
        iter.inv(),
        forall|e: StorageError| !(#[trigger] iter.can_fail(e)),
        model::agree(run::run_map(iter.remaining()), source, lower, upper),
        model::starts_at(run::run_map(iter.remaining()), lower),
    ensures
        cursors_for(iters.push(iter), sources.push(source), lower, upper),
{
    let maps = run::run_maps(merge_iterator::runs_of(iters));
    let m = run::run_map(iter.remaining());
    assert(run::run_maps(merge_iterator::runs_of(iters.push(iter))) =~= maps.push(m));
    run::overlay_all_push(maps, m);
    run::overlay_all_push(sources, source);
    model::agree_overlay(shown(iters), run::overlay_all(sources), m, source, lower, upper);
}

/// A source that has nothing between the bounds needs no cursor.
pub proof fn cursors_skip<I: StorageIterator<Keys = UserKeys>>(
    iters: Seq<I>,
    sources: Seq<Entries>,
    source: Entries,
    lower: Bound<Seq<u8>>,
    upper: Bound<Seq<u8>>,
)
    requires
        cursors_for(iters, sources, lower, upper),
        forall|k: Seq<u8>| #[trigger]
            bound::within(lower, upper, k) ==> !source.contains_key(k),
    ensures
        cursors_for(iters, sources.push(source), lower, upper),
{
    run::overlay_all_push(sources, source);
    assert(run::overlay(shown(iters), Map::empty()) =~= shown(iters));
    model::agree_overlay(
        shown(iters),
        run::overlay_all(sources),
        Map::empty(),
        source,
        lower,
        upper,
    );
}

/// The merge of cursors shows what they show together.
pub proof fn merge_shows<I: StorageIterator<Keys = UserKeys>>(iters: Seq<I>)
    requires
        forall|i: int| 0 <= i < iters.len() ==> (#[trigger] iters[i]).inv(),
    ensures
        run::sorted(run::merge_all(merge_iterator::runs_of(iters))),
        run::run_map(run::merge_all(merge_iterator::runs_of(iters))) == shown(iters),
{
    let runs = merge_iterator::runs_of(iters);
    assert forall|i: int| 0 <= i < runs.len() implies run::sorted(#[trigger] runs[i]) by {
        iters[i].inv_facts();
    }
    run::merge_all_is_overlay(runs);
}

/// A cursor that was moved to a lower bound shows what lies behind the bound.
pub proof fn from_bound_shows(s: Run<Seq<u8>>, lower: Bound<Seq<u8>>, upper: Bound<Seq<u8>>)
    requires
        run::sorted(s),
    ensures
        model::agree(
            run::run_map(bound::from_bound(s, lower)),
            run::run_map(s),
            lower,
            upper,
        ),
        model::starts_at(run::run_map(bound::from_bound(s, lower)), lower),
{
    bound::from_bound_map(s, lower);
}

/// The key range of the table meets the bounds, so that it may hold keys between them.
pub open spec fn overlaps(t: TableView, lower: Bound<Seq<u8>>, upper: Bound<Seq<u8>>) -> bool {
    bound::below_upper(upper, t.first()) && bound::above_lower(lower, t.last())
}

/// The tables that a scan has to look into.
pub open spec fn overlapping(
    tables: Seq<TableView>,
    lower: Bound<Seq<u8>>,
    upper: Bound<Seq<u8>>,
) -> Seq<TableView> {
    tables.filter(|t: TableView| overlaps(t, lower, upper))
}

/// The key range and the filter of the table leave open that it has the key.
pub open spec fn may_have(t: TableView, k: Seq<u8>) -> bool {
    key::le(t.first(), k) && key::le(k, t.last()) && table::filter_admits(t.filter, k)
}

/// **A scan looks into a table whose range the bounds meet**: its first key is not beyond the upper
/// bound, and its last key not before the lower one. So no table is left out that has a key between
/// the bounds.
pub proof fn scan_looks_where_ranges_meet(
    t: TableView,
    lower: Bound<Seq<u8>>,
    upper: Bound<Seq<u8>>,
    k: Seq<u8>,
)
    requires
        t.wf(),
    ensures
        overlaps(t, lower, upper) <==> bound::within(Bound::Unbounded, upper, t.first())
            && bound::within(lower, Bound::Unbounded, t.last()),
        t.entries().contains_key(k) && bound::within(lower, upper, k) ==> overlaps(
            t,
            lower,
            upper,
        ),
{
    broadcast use key::group_key_order;

    table_range(t);
}

/// **A point read looks into a table that can have the key**: the key is in its range, and its
/// filter does not rule the key out. So no table is left out that has the key.
pub proof fn read_looks_where_key_can_be(t: TableView, k: Seq<u8>)
    requires
        t.wf(),
    ensures
        may_have(t, k) <==> !k.lt(t.first()) && !t.last().lt(k) && table::filter_admits(
            t.filter,
            k,
        ),
        t.entries().contains_key(k) ==> may_have(t, k),
{
    broadcast use key::group_key_order;

    table_range(t);
    if t.entries().contains_key(k) {
        let i = run::run_map_find(t.run, k);
        assert(t.filter is Some ==> table::filter_admits(t.filter, t.run[i].0));
    }
}

/// The tables that a point read has to look into.
pub open spec fn candidates(tables: Seq<TableView>, k: Seq<u8>) -> Seq<TableView> {
    tables.filter(|t: TableView| may_have(t, k))
}

/// One more table is among those that are kept, or it is not.
pub proof fn filter_step(tables: Seq<TableView>, i: int, pred: spec_fn(TableView) -> bool)
    requires
        0 <= i < tables.len(),
    ensures
        tables.take(i + 1).filter(pred) == if pred(tables[i]) {
            tables.take(i).filter(pred).push(tables[i])
        } else {
            tables.take(i).filter(pred)
        },
{
    assert(tables.take(i + 1).drop_last() =~= tables.take(i));
    reveal(Seq::filter);
}

/// The keys of a table lie between its first and its last key.
pub proof fn table_range(t: TableView)
    requires
        t.wf(),
    ensures
        forall|k: Seq<u8>| #[trigger]
            t.entries().contains_key(k) ==> key::le(t.first(), k) && key::le(k, t.last()),
{
    assert forall|k: Seq<u8>| #[trigger] t.entries().contains_key(k) implies key::le(t.first(), k)
        && key::le(k, t.last()) by {
        let i = run::run_map_find(t.run, k);
        if i > 0 {
            assert(t.run[0].0.lt(t.run[i].0));
        }
        if i < t.run.len() - 1 {
            assert(t.run[i].0.lt(t.run[t.run.len() - 1].0));
        }
    }
}

/// `kept` are, in order, tables among the first `i` of a level, and between the bounds they hold
/// what those hold.
pub open spec fn kept_of(
    kept: Seq<TableView>,
    all: Seq<TableView>,
    i: int,
    lower: Bound<Seq<u8>>,
    upper: Bound<Seq<u8>>,
) -> bool {
    &&& concat_iterator::disjoint(kept)
    &&& forall|m: int, n: int|
        0 <= m < kept.len() && i <= n < all.len() ==> (#[trigger] kept[m]).last().lt(
            (#[trigger] all[n]).first(),
        )
    &&& model::agree(
        run::run_map(concat_iterator::level_run(kept)),
        run::run_map(concat_iterator::level_run(all.take(i))),
        lower,
        upper,
    )
}

/// No table seen, none kept.
pub proof fn nothing_kept(all: Seq<TableView>, lower: Bound<Seq<u8>>, upper: Bound<Seq<u8>>)
    ensures
        kept_of(Seq::empty(), all, 0, lower, upper),
{
    assert(all.take(0) =~= Seq::empty());
}

/// One more table of a level, of which some are left out because they have nothing between the
/// bounds.
pub proof fn level_step(
    kept: Seq<TableView>,
    all: Seq<TableView>,
    i: int,
    keep: bool,
    lower: Bound<Seq<u8>>,
    upper: Bound<Seq<u8>>,
)
    requires
        0 <= i < all.len(),
        concat_iterator::disjoint(all),
        kept_of(kept, all, i, lower, upper),
        !keep ==> forall|k: Seq<u8>| #[trigger]
            bound::within(lower, upper, k) ==> !all[i].entries().contains_key(k),
    ensures
        kept_of(
            if keep {
                kept.push(all[i])
            } else {
                kept
            },
            all,
            i + 1,
            lower,
            upper,
        ),
{
    broadcast use key::group_key_order;

    let t = all[i];
    let seen = all.take(i);
    assert(all.take(i + 1) =~= seen.push(t));
    concat_iterator::level_run_push(seen, t);
    concat_iterator::disjoint_part(all, 0, i + 1);
    assert(all.subrange(0, i + 1) =~= all.take(i + 1));
    concat_iterator::level_run_bounds(all.take(i + 1));
    run::run_map_concat(concat_iterator::level_run(seen), t.run);
    let full = run::run_map(concat_iterator::level_run(all.take(i + 1)));
    if keep {
        let more = kept.push(t);
        assert forall|n: int| 0 <= n < more.len() implies (#[trigger] more[n]).wf() by {
            if n < kept.len() {
                assert(more[n] == kept[n]);
            }
        }
        assert forall|m: int, n: int| 0 <= m < n < more.len() implies (
        #[trigger] more[m]).last().lt((#[trigger] more[n]).first()) by {
            assert(more[m] == kept[m]);
            if n < kept.len() {
                assert(more[n] == kept[n]);
            }
        }
        assert forall|m: int, n: int| 0 <= m < more.len() && i + 1 <= n < all.len() implies (
        #[trigger] more[m]).last().lt((#[trigger] all[n]).first()) by {
            if m < kept.len() {
                assert(more[m] == kept[m]);
            }
        }
        concat_iterator::level_run_push(kept, t);
        concat_iterator::level_run_bounds(more);
        run::run_map_concat(concat_iterator::level_run(kept), t.run);
        model::agree_overlay(
            run::run_map(concat_iterator::level_run(kept)),
            run::run_map(concat_iterator::level_run(seen)),
            t.entries(),
            t.entries(),
            lower,
            upper,
        );
    } else {
        model::agree_overlay(
            run::run_map(concat_iterator::level_run(kept)),
            run::run_map(concat_iterator::level_run(seen)),
            Map::empty(),
            t.entries(),
            lower,
            upper,
        );
        assert(run::overlay(
            run::run_map(concat_iterator::level_run(kept)),
            Map::empty(),
        ) =~= run::run_map(concat_iterator::level_run(kept)));
    }
}

impl LsmStorageState {
    /// The table with an id.
    pub fn table(&self, id: usize) -> (r: Arc<SsTable>)
        requires
            self@.has_table(id),
        ensures
            r@ == self@.sstables[id],
            r.wf(),
    {
        broadcast use vstd::std_specs::hash::group_hash_axioms;

        Arc::clone(self.sstables.get(&id).unwrap())
    }
}

} // verus!
