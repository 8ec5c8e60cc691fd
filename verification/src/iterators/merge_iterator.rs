//! Merging any number of cursors of one type.

use vstd::prelude::*;
use crate::error::StorageError;
use crate::iterators::StorageIterator;
use crate::key;
use crate::key::{KeyFamily, KeyModel, StorageKey};
use crate::run;
use crate::run::Run;

verus! {

/// Run `i` supplies the next entry: no run has a smaller key ahead, and no earlier run has the
/// same one.
pub open spec fn wins<K: KeyModel>(runs: Seq<Run<K>>, i: int) -> bool {
    &&& 0 <= i < runs.len()
    &&& runs[i].len() > 0
    &&& forall|j: int|
        #![trigger runs[j]]
        0 <= j < runs.len() && runs[j].len() > 0 ==> if j < i {
            runs[i][0].0.lt(runs[j][0].0)
        } else {
            key::le(runs[i][0].0, runs[j][0].0)
        }
}

/// No run has an entry left.
pub open spec fn all_empty<K>(runs: Seq<Run<K>>) -> bool {
    forall|j: int| 0 <= j < runs.len() ==> (#[trigger] runs[j]).len() == 0
}

/// All runs past their entries for `k`.
pub open spec fn all_past<K>(runs: Seq<Run<K>>, k: K) -> Seq<Run<K>> {
    runs.map_values(|s: Run<K>| run::past(s, k))
}

proof fn merge_of_nothing<K: KeyModel>(runs: Seq<Run<K>>)
    requires
        all_empty(runs),
    ensures
        run::merge_all(runs).len() == 0,
    decreases runs.len(),
{
    if runs.len() > 0 {
        assert forall|j: int| 0 <= j < runs.drop_first().len() implies (
        #[trigger] runs.drop_first()[j]).len() == 0 by {
            assert(runs.drop_first()[j] == runs[j + 1]);
        }
        merge_of_nothing(runs.drop_first());
    }
}

/// Passing over a key that no run starts with moves nothing.
proof fn all_past_absent<K: KeyModel>(runs: Seq<Run<K>>, k: K)
    requires
        forall|j: int|
            #![trigger runs[j]]
            0 <= j < runs.len() && runs[j].len() > 0 ==> k.lt(runs[j][0].0),
    ensures
        all_past(runs, k) == runs,
        run::merge_all(runs).len() > 0 ==> k.lt(run::merge_all(runs)[0].0),
    decreases runs.len(),
{
    broadcast use key::group_key_order;

    assert(all_past(runs, k) =~= runs);
    if runs.len() > 0 {
        let rest = runs.drop_first();
        assert forall|j: int|
            #![trigger rest[j]]
            0 <= j < rest.len() && rest[j].len() > 0 implies k.lt(rest[j][0].0) by {
            assert(rest[j] == runs[j + 1]);
        }
        all_past_absent(rest, k);
    }
}

/// The merge starts with the winner's entry, and goes on with every run past that key.
proof fn merge_head<K: KeyModel>(runs: Seq<Run<K>>, i: int)
    requires
        wins(runs, i),
    ensures
        run::merge_all(runs) == seq![runs[i][0]] + run::merge_all(
            all_past(runs, runs[i][0].0),
        ),
    decreases runs.len(),
{
    broadcast use key::group_key_order;

    let k = runs[i][0].0;
    let top = runs[0];
    let rest = runs.drop_first();
    let below = run::merge_all(rest);
    assert forall|j: int| 0 <= j < rest.len() implies #[trigger] rest[j] == runs[j + 1] by {}
    assert(all_past(runs, k).drop_first() =~= all_past(rest, k));
    assert(all_past(runs, k)[0] == run::past(top, k));
    if i > 0 {
        assert(wins(rest, i - 1)) by {
            assert(rest[i - 1] == runs[i]);
        }
        merge_head(rest, i - 1);
        let tail = run::merge_all(all_past(rest, k));
        assert(below.drop_first() =~= tail);
        if top.len() > 0 {
            assert(runs[0].len() > 0 ==> runs[i][0].0.lt(runs[0][0].0));
        }
    } else {
        if exists|j: int| 0 <= j < rest.len() && rest[j].len() > 0 && rest[j][0].0 == k {
            let first = first_with(rest, k);
            merge_head(rest, first);
            assert(below.drop_first() =~= run::merge_all(all_past(rest, k)));
        } else {
            assert forall|j: int|
                #![trigger rest[j]]
                0 <= j < rest.len() && rest[j].len() > 0 implies k.lt(rest[j][0].0) by {
                assert(rest[j] == runs[j + 1]);
            }
            all_past_absent(rest, k);
            if below.len() == 0 {
                assert(top =~= seq![top[0]] + top.drop_first());
                assert(run::merge2(top.drop_first(), below) =~= top.drop_first());
            }
        }
    }
}

/// The first of the runs that start with the least key `k`.
proof fn first_with<K: KeyModel>(runs: Seq<Run<K>>, k: K) -> (i: int)
    requires
        exists|j: int| 0 <= j < runs.len() && runs[j].len() > 0 && runs[j][0].0 == k,
        forall|j: int|
            #![trigger runs[j]]
            0 <= j < runs.len() && runs[j].len() > 0 ==> key::le(k, runs[j][0].0),
    ensures
        wins(runs, i),
        runs[i][0].0 == k,
    decreases runs.len(),
{
    broadcast use key::group_key_order;

    if runs[0].len() > 0 && runs[0][0].0 == k {
        0
    } else {
        let rest = runs.drop_first();
        let j = choose|j: int| 0 <= j < runs.len() && runs[j].len() > 0 && runs[j][0].0 == k;
        assert(rest[j - 1] == runs[j]);
        assert forall|n: int|
            #![trigger rest[n]]
            0 <= n < rest.len() && rest[n].len() > 0 implies key::le(k, rest[n][0].0) by {
            assert(rest[n] == runs[n + 1]);
        }
        let i = first_with(rest, k) + 1;
        assert(runs[i] == rest[i - 1]);
        assert forall|n: int|
            #![trigger runs[n]]
            0 <= n < runs.len() && runs[n].len() > 0 implies if n < i {
            runs[i][0].0.lt(runs[n][0].0)
        } else {
            key::le(runs[i][0].0, runs[n][0].0)
        } by {
            if n > 0 {
                assert(rest[n - 1] == runs[n]);
            }
        }
        i
    }
}

/// How one more run changes the winner.
proof fn winner_of_more<K: KeyModel>(runs: Seq<Run<K>>, more: Run<K>, best: Option<usize>)
    requires
        best is None ==> all_empty(runs),
        best matches Some(b) ==> wins(runs, b as int),
    ensures
        more.len() == 0 && best is None ==> all_empty(runs.push(more)),
        more.len() == 0 && best is Some ==> wins(runs.push(more), best->0 as int),
        more.len() > 0 && best is None ==> wins(runs.push(more), runs.len() as int),
        more.len() > 0 && best is Some && more[0].0.lt(runs[best->0 as int][0].0) ==> wins(
            runs.push(more),
            runs.len() as int,
        ),
        more.len() > 0 && best is Some && !more[0].0.lt(runs[best->0 as int][0].0) ==> wins(
            runs.push(more),
            best->0 as int,
        ),
{
    broadcast use key::group_key_order;

    let all = runs.push(more);
    assert forall|j: int| 0 <= j < runs.len() implies #[trigger] all[j] == runs[j] by {}
    if best is None {
        assert forall|j: int| 0 <= j < runs.len() implies (#[trigger] all[j]).len() == 0 by {
            assert(runs[j].len() == 0);
        }
    } else {
        assert forall|j: int| 0 <= j < runs.len() && all[j].len() > 0 implies key::le(
            runs[best->0 as int][0].0,
            (#[trigger] all[j])[0].0,
        ) by {
            assert(runs[j].len() > 0);
        }
    }
}

/// The entries ahead of each cursor.
pub open spec fn runs_of<I: StorageIterator>(iters: Seq<I>) -> Seq<
    Run<<I::Keys as KeyFamily>::Model>,
> {
    iters.map_values(|i: I| i.remaining())
}

/// How many underlying cursors are active below some cursors.
pub open spec fn total_active<I: StorageIterator>(iters: Seq<I>) -> nat
    decreases iters.len(),
{
    if iters.len() == 0 {
        0
    } else {
        total_active(iters.drop_last()) + iters.last().active()
    }
}

/// **A merge reads all of its cursors**: each counts with its own active ones, wherever it stands.
pub proof fn every_cursor_counts<I: StorageIterator>(iters: Seq<I>, i: int)
    requires
        0 <= i < iters.len(),
    ensures
        total_active(iters) == iters[i].active() + total_active(iters.remove(i)),
        runs_of(iters).len() == iters.len(),
        runs_of(iters)[i] == iters[i].remaining(),
    decreases iters.len(),
{
    let last = iters.len() - 1;
    if i < last {
        every_cursor_counts(iters.drop_last(), i);
        assert(iters.drop_last().remove(i) =~= iters.remove(i).drop_last());
        assert(iters.remove(i).last() == iters.last());
    } else {
        assert(iters.remove(i) =~= iters.drop_last());
    }
}

/// All cursors leave the number of active ones as it is.
pub open spec fn all_steady<I: StorageIterator>(iters: Seq<I>) -> bool {
    forall|j: int| 0 <= j < iters.len() ==> (#[trigger] iters[j]).steady()
}

/// Merges multiple iterators of the same type. If the same key occurs multiple times in some
/// iterators, prefer the one with the smaller index.
pub struct MergeIterator<I: StorageIterator> {
    iters: Vec<I>,
    // The cursor that supplies the current entry.
    current: Option<usize>,
}

impl<I: StorageIterator> MergeIterator<I> {
    spec fn runs(&self) -> Seq<Run<<I::Keys as KeyFamily>::Model>> {
        runs_of(self.iters@)
    }

    spec fn children_inv(&self) -> bool {
        forall|j: int| 0 <= j < self.iters@.len() ==> (#[trigger] self.iters@[j]).inv()
    }

    /// Finds the cursor with the smallest key, the first one on a tie.
    fn select(iters: &Vec<I>) -> (r: Option<usize>)
        requires
            forall|j: int| 0 <= j < iters@.len() ==> (#[trigger] iters@[j]).inv(),
        ensures
            r matches Some(i) ==> wins(runs_of(iters@), i as int),
            r is None ==> all_empty(runs_of(iters@)),
    {
        broadcast use key::group_key_order;

        let ghost runs = runs_of(iters@);
        let mut best: Option<usize> = None;
        let mut i: usize = 0;
        while i < iters.len()
            invariant
                i <= iters@.len(),
                runs == runs_of(iters@),
                forall|j: int| 0 <= j < iters@.len() ==> (#[trigger] iters@[j]).inv(),
                best is None ==> all_empty(runs.take(i as int)),
                best matches Some(b) ==> b < i && wins(runs.take(i as int), b as int),
            decreases iters@.len() - i,
        {
            let ghost before = best;
            if iters[i].is_valid() {
                match best {
                    None => {
                        best = Some(i);
                    },
                    Some(b) => {
                        assert(runs.take(i as int)[b as int] == runs[b as int]);
                        if iters[i].key().less(&iters[b].key()) {
                            best = Some(i);
                        }
                    },
                }
            }
            proof {
                assert(runs.take(i + 1) =~= runs.take(i as int).push(runs[i as int]));
                winner_of_more(runs.take(i as int), runs[i as int], before);
            }
            i = i + 1;
        }
        assert(runs.take(i as int) =~= runs);
        best
    }

    /// Merges positioned cursors, the ones to be preferred first.
    pub fn create(iters: Vec<I>) -> (r: Self)
        requires
            forall|j: int| 0 <= j < iters@.len() ==> (#[trigger] iters@[j]).inv(),
        ensures
            r.inv(),
            r.remaining() == run::merge_all(runs_of(iters@)),
            r.active() == total_active(iters@),
            r.steady() == all_steady(iters@),
            forall|e: StorageError| #[trigger]
                r.can_fail(e) == exists|j: int|
                    0 <= j < iters@.len() && (#[trigger] iters@[j]).can_fail(e),
    {
        let current = Self::select(&iters);
        MergeIterator { iters, current }
    }
}

impl<I: StorageIterator> StorageIterator for MergeIterator<I> {
    type Keys = I::Keys;

    closed spec fn inv(&self) -> bool {
        &&& self.children_inv()
        &&& self.current matches Some(i) ==> wins(self.runs(), i as int)
        &&& self.current is None ==> all_empty(self.runs())
    }

    closed spec fn remaining(&self) -> Run<<Self::Keys as KeyFamily>::Model> {
        run::merge_all(self.runs())
    }

    closed spec fn may_advance(&self) -> bool {
        self.current is Some
    }

    closed spec fn can_fail(&self, e: StorageError) -> bool {
        exists|j: int| 0 <= j < self.iters@.len() && (#[trigger] self.iters@[j]).can_fail(e)
    }

    closed spec fn active(&self) -> nat {
        total_active(self.iters@)
    }

    closed spec fn steady(&self) -> bool {
        all_steady(self.iters@)
    }

    proof fn inv_facts(&self) {
        assert forall|j: int| 0 <= j < self.runs().len() implies run::sorted(
            #[trigger] self.runs()[j],
        ) by {
            self.iters@[j].inv_facts();
        }
        run::merge_all_is_overlay(self.runs());
        if self.current is None {
            merge_of_nothing(self.runs());
        }
    }

    fn is_valid(&self) -> (r: bool) {
        proof {
            match self.current {
                Some(i) => merge_head(self.runs(), i as int),
                None => merge_of_nothing(self.runs()),
            }
        }
        self.current.is_some()
    }

    fn key(&self) -> (r: <Self::Keys as KeyFamily>::Key<'_>) {
        proof {
            match self.current {
                Some(i) => merge_head(self.runs(), i as int),
                None => merge_of_nothing(self.runs()),
            }
        }
        let i: usize = self.current.unwrap();
        self.iters[i].key()
    }

    fn value(&self) -> (r: &[u8]) {
        proof {
            match self.current {
                Some(i) => merge_head(self.runs(), i as int),
                None => merge_of_nothing(self.runs()),
            }
        }
        let i: usize = self.current.unwrap();
        self.iters[i].value()
    }

    fn next(&mut self) -> (r: Result<(), StorageError>) {
        let current: usize = self.current.unwrap();
        let ghost runs = self.runs();
        let ghost k = runs[current as int][0].0;
        proof {
            merge_head(runs, current as int);
        }
        // Consume the copies of the current key in the other cursors, then leave the winner.
        let mut i: usize = 0;
        while i < self.iters.len()
            invariant
                i <= self.iters@.len(),
                current < self.iters@.len(),
                self.iters@.len() == old(self).iters@.len(),
                runs == old(self).runs(),
                runs[current as int].len() > 0,
                k == runs[current as int][0].0,
                self.children_inv(),
                forall|j: int|
                    0 <= j < runs.len() ==> #[trigger] self.iters@[j].remaining() == if j < i && j
                        != current {
                        run::past(runs[j], k)
                    } else {
                        runs[j]
                    },
                forall|j: int, e: StorageError|
                    0 <= j < runs.len() ==> #[trigger] self.iters@[j].can_fail(e) == old(
                        self,
                    ).iters@[j].can_fail(e),
                old(self).steady() ==> all_steady(self.iters@) && forall|j: int|
                    0 <= j < runs.len() ==> (#[trigger] self.iters@[j]).active() == old(
                        self,
                    ).iters@[j].active(),
            decreases self.iters@.len() - i,
        {
            if i != current && self.iters[i].is_valid() && self.iters[i].key().same(
                &self.iters[current].key(),
            ) {
                proof {
                    self.iters@[i as int].inv_facts();
                }
                self.iters[i].next()?;
            }
            i = i + 1;
        }
        proof {
            self.iters@[current as int].inv_facts();
        }
        self.iters[current].next()?;
        proof {
            assert(self.runs() =~= all_past(runs, k));
            assert(run::merge_all(self.runs()) =~= old(self).remaining().drop_first());
        }
        self.current = Self::select(&self.iters);
        proof {
            if old(self).steady() {
                total_active_same(old(self).iters@, self.iters@);
            }
            assert forall|e: StorageError| #[trigger] self.can_fail(e) == old(self).can_fail(
                e,
            ) by {
                if old(self).can_fail(e) {
                    let j = choose|j: int|
                        0 <= j < old(self).iters@.len() && (
                        #[trigger] old(self).iters@[j]).can_fail(e);
                    assert(self.iters@[j].can_fail(e));
                }
            }
        }
        Ok(())
    }

    fn num_active_iterators(&self) -> (r: usize) {
        let mut total: usize = 0;
        let mut i: usize = 0;
        while i < self.iters.len()
            invariant
                i <= self.iters@.len(),
                total == total_active(self.iters@.take(i as int)),
                total_active(self.iters@) <= usize::MAX,
            decreases self.iters@.len() - i,
        {
            proof {
                assert(self.iters@.take(i + 1).drop_last() =~= self.iters@.take(i as int));
                total_active_prefix(self.iters@, i + 1);
            }
            total = total + self.iters[i].num_active_iterators();
            i = i + 1;
        }
        assert(self.iters@.take(i as int) =~= self.iters@);
        total
    }
}

/// As many cursors are active below others, one for one.
proof fn total_active_same<I: StorageIterator>(a: Seq<I>, b: Seq<I>)
    requires
        a.len() == b.len(),
        forall|j: int| 0 <= j < a.len() ==> (#[trigger] b[j]).active() == a[j].active(),
    ensures
        total_active(a) == total_active(b),
    decreases a.len(),
{
    if a.len() > 0 {
        assert(b.last() == b[b.len() - 1]);
        total_active_same(a.drop_last(), b.drop_last());
    }
}

/// Cursors that are one active cursor each.
pub proof fn total_active_of_singles<I: StorageIterator>(iters: Seq<I>)
    requires
        forall|j: int| 0 <= j < iters.len() ==> (#[trigger] iters[j]).active() == 1,
    ensures
        total_active(iters) == iters.len(),
    decreases iters.len(),
{
    if iters.len() > 0 {
        assert(iters.last() == iters[iters.len() - 1]);
        total_active_of_singles(iters.drop_last());
    }
}

proof fn total_active_prefix<I: StorageIterator>(iters: Seq<I>, n: int)
    requires
        0 <= n <= iters.len(),
    ensures
        total_active(iters.take(n)) <= total_active(iters),
    decreases iters.len(),
{
    if n < iters.len() {
        total_active_prefix(iters.drop_last(), n);
        assert(iters.drop_last().take(n) =~= iters.take(n));
    } else {
        assert(iters.take(n) =~= iters);
    }
}

} // verus!
