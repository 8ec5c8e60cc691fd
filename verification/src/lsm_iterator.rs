//! The cursor that a scan hands out, and the wrapper that makes a cursor safe to keep calling.

use vstd::prelude::*;
use std::ops::Bound;
use bytes::Bytes;
use crate::bound;
use crate::bound::is_below_upper;
use crate::error::StorageError;
use crate::iterators::StorageIterator;
use crate::key;
use crate::key::{KeyFamily, KeyModel, RawKeys, UserKeys};
use crate::run;
use crate::run::Run;

verus! {

/// The entry is live and not past the upper bound.
pub open spec fn is_visible(upper: Bound<Seq<u8>>, e: (Seq<u8>, Seq<u8>)) -> bool {
    bound::below_upper(upper, e.0) && e.1.len() > 0
}

/// What a scan shows of merged entries: those up to the upper bound that are not tombstones.
pub open spec fn visible(s: Run<Seq<u8>>, upper: Bound<Seq<u8>>) -> Run<Seq<u8>> {
    s.filter(|e: (Seq<u8>, Seq<u8>)| is_visible(upper, e))
}

/// The first entry is a tombstone within the bound, so that the cursor has to be moved before
/// anything can be shown.
pub open spec fn starts_hidden(s: Run<Seq<u8>>, upper: Bound<Seq<u8>>) -> bool {
    s.len() > 0 && bound::below_upper(upper, s[0].0) && s[0].1.len() == 0
}

/// The live entries of a map between two bounds.
pub open spec fn live_range(
    m: Map<Seq<u8>, Seq<u8>>,
    lower: Bound<Seq<u8>>,
    upper: Bound<Seq<u8>>,
) -> Map<Seq<u8>, Seq<u8>> {
    Map::new(
        |k: Seq<u8>| m.contains_key(k) && bound::within(lower, upper, k) && m[k].len() > 0,
        |k: Seq<u8>| m[k],
    )
}

/// The head is shown or passed over, and the rest is treated alike.
proof fn visible_step(s: Run<Seq<u8>>, upper: Bound<Seq<u8>>)
    requires
        s.len() > 0,
    ensures
        is_visible(upper, s[0]) ==> visible(s, upper) == seq![s[0]] + visible(
            s.drop_first(),
            upper,
        ),
        !is_visible(upper, s[0]) ==> visible(s, upper) == visible(s.drop_first(), upper),
{
    let p = |e: (Seq<u8>, Seq<u8>)| is_visible(upper, e);
    assert(s =~= seq![s[0]] + s.drop_first());
    Seq::filter_distributes_over_add(seq![s[0]], s.drop_first(), p);
    let one = seq![s[0]];
    assert(one.drop_last() =~= Seq::empty());
    reveal_with_fuel(Seq::filter, 2);
    if is_visible(upper, s[0]) {
        assert(one.filter(p) =~= one);
    } else {
        assert(one.filter(p) =~= Seq::empty());
        assert(Seq::<(Seq<u8>, Seq<u8>)>::empty() + visible(s.drop_first(), upper) =~= visible(
            s.drop_first(),
            upper,
        ));
    }
}

/// Past the upper bound, a sorted run shows nothing.
proof fn visible_past_bound(s: Run<Seq<u8>>, upper: Bound<Seq<u8>>)
    requires
        run::sorted(s),
        s.len() > 0 ==> !bound::below_upper(upper, s[0].0),
    ensures
        visible(s, upper).len() == 0,
    decreases s.len(),
{
    broadcast use key::group_key_order;

    reveal_with_fuel(Seq::filter, 1);
    if s.len() > 0 {
        visible_step(s, upper);
        run::run_map_drop_first(s);
        if s.len() > 1 {
            assert(s[0].0.lt(s[1].0));
        }
        visible_past_bound(s.drop_first(), upper);
    }
}

/// **What a scan shows** is sorted, and lists exactly the live entries up to the upper bound.
pub proof fn visible_is_live_range(s: Run<Seq<u8>>, upper: Bound<Seq<u8>>)
    requires
        run::sorted(s),
    ensures
        run::sorted(visible(s, upper)),
        run::run_map(visible(s, upper)) == live_range(run::run_map(s), Bound::Unbounded, upper),
    decreases s.len(),
{
    broadcast use key::group_key_order;

    let m = live_range(run::run_map(s), Bound::Unbounded, upper);
    if s.len() == 0 {
        reveal_with_fuel(Seq::filter, 1);
        run::run_map_empty(s);
        run::run_map_empty(visible(s, upper));
        assert(m =~= Map::empty());
    } else {
        let rest = s.drop_first();
        run::run_map_at(s, 0);
        run::run_map_drop_first(s);
        visible_step(s, upper);
        visible_is_live_range(rest, upper);
        let n = live_range(run::run_map(rest), Bound::Unbounded, upper);
        if is_visible(upper, s[0]) {
            run::run_map_prepend(s[0], visible(rest, upper));
            assert(m =~= n.insert(s[0].0, s[0].1));
        } else {
            assert(m =~= n);
        }
    }
}

/// **A scan shows an entry of the merged ones exactly if** it is within the upper bound and has a
/// value.
pub proof fn shown_exactly_if_live(s: Run<Seq<u8>>, upper: Bound<Seq<u8>>, e: (Seq<u8>, Seq<u8>))
    ensures
        visible(s, upper).contains(e) <==> s.contains(e) && bound::within(
            Bound::Unbounded,
            upper,
            e.0,
        ) && e.1.len() > 0,
    decreases s.len(),
{
    let shown = visible(s, upper);
    if s.len() == 0 {
        reveal_with_fuel(Seq::filter, 1);
        assert(shown =~= Seq::empty());
    } else {
        let rest = s.drop_first();
        let later = visible(rest, upper);
        visible_step(s, upper);
        shown_exactly_if_live(rest, upper, e);
        if s.contains(e) {
            let i = choose|i: int| 0 <= i < s.len() && s[i] == e;
            if i > 0 {
                assert(rest[i - 1] == e);
            }
        }
        if rest.contains(e) {
            let i = choose|i: int| 0 <= i < rest.len() && rest[i] == e;
            assert(s[i + 1] == e);
        }
        if is_visible(upper, s[0]) {
            assert(shown[0] == s[0]);
            if later.contains(e) {
                let i = choose|i: int| 0 <= i < later.len() && later[i] == e;
                assert(shown[i + 1] == e);
            }
            if shown.contains(e) {
                let i = choose|i: int| 0 <= i < shown.len() && shown[i] == e;
                if i > 0 {
                    assert(later[i - 1] == e);
                }
            }
        }
        assert(s[0] == e ==> s.contains(e));
    }
}

/// **Where the first entry is hidden, the cursor has to move**, and moving it changes nothing of
/// what is shown. Elsewhere it shows its first entry or nothing at all.
pub proof fn hidden_start_is_passed_over(s: Run<Seq<u8>>, upper: Bound<Seq<u8>>)
    requires
        run::sorted(s),
    ensures
        starts_hidden(s, upper) ==> s.len() > 0 && bound::within(
            Bound::Unbounded,
            upper,
            s[0].0,
        ) && visible(s, upper) == visible(s.drop_first(), upper),
        !starts_hidden(s, upper) ==> visible(s, upper).len() == 0 || visible(s, upper)[0] == s[0],
{
    if s.len() == 0 {
        reveal_with_fuel(Seq::filter, 1);
    } else {
        visible_step(s, upper);
        if !bound::below_upper(upper, s[0].0) {
            visible_past_bound(s, upper);
        }
    }
}

/// A scan cursor: shows the live entries of a merged cursor up to an upper bound.
pub struct LsmIterator<I: StorageIterator<Keys = UserKeys>> {
    inner: I,
    end_bound: Bound<Bytes>,
    // Logical scan validity can be false while inner still has keys: those keys
    // might all lie beyond this scan's upper bound.
    is_valid: bool,
}

impl<I: StorageIterator<Keys = UserKeys>> LsmIterator<I> {
    spec fn shown(&self) -> Run<Seq<u8>> {
        visible(self.inner.remaining(), bound::bytes_bound(self.end_bound))
    }

    /// Where the flag is up, the inner cursor has an entry within the bound; where it is down,
    /// nothing more is to be shown.
    spec fn bounded(&self) -> bool {
        &&& self.inner.inv()
        &&& self.is_valid ==> {
            &&& self.inner.remaining().len() > 0
            &&& bound::below_upper(
                bound::bytes_bound(self.end_bound),
                self.inner.remaining()[0].0,
            )
        }
        &&& !self.is_valid ==> self.shown().len() == 0
    }

    /// Wraps a positioned cursor. A lower-bound seek may already have landed past the upper bound
    /// or on a tombstone, so the initial position is settled before the caller's first `next()`.
    pub fn new(iter: I, end_bound: Bound<Bytes>) -> (r: Result<Self, StorageError>)
        requires
            iter.inv(),
        ensures
            r matches Ok(scan) ==> {
                &&& scan.inv()
                &&& scan.remaining() == visible(iter.remaining(), bound::bytes_bound(end_bound))
                &&& forall|e: StorageError| #[trigger] scan.can_fail(e) == iter.can_fail(e)
                &&& !starts_hidden(iter.remaining(), bound::bytes_bound(end_bound))
                    ==> scan.active() == iter.active()
                &&& iter.steady() ==> scan.steady() && scan.active() == iter.active()
            },
            !starts_hidden(iter.remaining(), bound::bytes_bound(end_bound)) ==> r is Ok,
            r matches Err(e) ==> iter.can_fail(e),
    {
        proof {
            if iter.remaining().len() == 0 {
                reveal_with_fuel(Seq::filter, 1);
            }
        }
        let valid: bool = iter.is_valid();
        let mut scan = Self { is_valid: valid, inner: iter, end_bound };
        scan.check_end_bound();
        scan.move_to_non_delete()?;
        Ok(scan)
    }

    /// Lowers the flag once the current key is past the upper bound: the merged stream is sorted,
    /// so crossing the bound ends the whole scan.
    fn check_end_bound(&mut self)
        requires
            old(self).inner.inv(),
            old(self).is_valid ==> old(self).inner.remaining().len() > 0,
            !old(self).is_valid ==> old(self).shown().len() == 0,
        ensures
            final(self).inner == old(self).inner,
            final(self).end_bound == old(self).end_bound,
            final(self).bounded(),
            final(self).is_valid == (old(self).is_valid && bound::below_upper(
                bound::bytes_bound(old(self).end_bound),
                old(self).inner.remaining()[0].0,
            )),
    {
        if !self.is_valid {
            return;
        }
        let below: bool = is_below_upper(&self.end_bound, self.inner.key().raw_ref());
        proof {
            self.inner.inv_facts();
            if !below {
                visible_past_bound(
                    self.inner.remaining(),
                    bound::bytes_bound(self.end_bound),
                );
            }
        }
        self.is_valid = below;
    }

    /// Advances by one distinct merged key, which might still be a tombstone. Exhaustion and the
    /// bound are checked on every raw step.
    fn next_inner(&mut self) -> (r: Result<(), StorageError>)
        requires
            old(self).bounded(),
            old(self).inner.remaining().len() > 0,
        ensures
            final(self).end_bound == old(self).end_bound,
            r is Ok ==> final(self).bounded(),
            r is Ok ==> final(self).inner.remaining() == old(self).inner.remaining().drop_first(),
            r is Ok ==> forall|e: StorageError|
                #[trigger] final(self).inner.can_fail(e) == old(self).inner.can_fail(e),
            r is Ok && old(self).inner.steady() ==> final(self).inner.steady()
                && final(self).inner.active() == old(self).inner.active(),
            r matches Err(e) ==> old(self).inner.can_fail(e),
    {
        proof {
            self.inner.inv_facts();
            visible_step(self.inner.remaining(), bound::bytes_bound(self.end_bound));
        }
        self.inner.next()?;
        if !self.inner.is_valid() {
            proof {
                reveal_with_fuel(Seq::filter, 1);
            }
            self.is_valid = false;
            return Ok(());
        }
        self.check_end_bound();
        Ok(())
    }

    /// Steps over tombstones. Filtering comes after the merge has chosen the newest entry and
    /// consumed the older copies, so a deleted key cannot reappear.
    fn move_to_non_delete(&mut self) -> (r: Result<(), StorageError>)
        requires
            old(self).bounded(),
        ensures
            r is Ok ==> final(self).inv(),
            r is Ok ==> final(self).remaining() == old(self).shown(),
            r is Ok ==> forall|e: StorageError|
                #[trigger] final(self).can_fail(e) == old(self).can_fail(e),
            !(old(self).is_valid && old(self).inner.remaining()[0].1.len() == 0) ==> r is Ok
                && *final(self) == *old(self),
            r is Ok && old(self).inner.steady() ==> final(self).inner.steady()
                && final(self).inner.active() == old(self).inner.active(),
            r matches Err(e) ==> old(self).can_fail(e),
    {
        while self.is_valid && self.inner.value().is_empty()
            invariant
                self.bounded(),
                self.end_bound == old(self).end_bound,
                self.shown() == old(self).shown(),
                !(old(self).is_valid && old(self).inner.remaining()[0].1.len() == 0) ==> *self
                    == *old(self),
                forall|e: StorageError|
                    #[trigger] self.inner.can_fail(e) == old(self).inner.can_fail(e),
                old(self).inner.steady() ==> self.inner.steady() && self.inner.active() == old(
                    self,
                ).inner.active(),
            decreases self.inner.remaining().len(),
        {
            proof {
                visible_step(self.inner.remaining(), bound::bytes_bound(self.end_bound));
            }
            self.next_inner()?;
        }
        proof {
            if self.is_valid {
                visible_step(self.inner.remaining(), bound::bytes_bound(self.end_bound));
            }
        }
        Ok(())
    }
}

impl<I: StorageIterator<Keys = UserKeys>> StorageIterator for LsmIterator<I> {
    type Keys = RawKeys;

    closed spec fn inv(&self) -> bool {
        &&& self.bounded()
        &&& self.is_valid ==> self.inner.remaining()[0].1.len() > 0
    }

    closed spec fn remaining(&self) -> Run<Seq<u8>> {
        self.shown()
    }

    closed spec fn may_advance(&self) -> bool {
        self.inner.remaining().len() > 0
    }

    closed spec fn can_fail(&self, e: StorageError) -> bool {
        self.inner.can_fail(e)
    }

    closed spec fn active(&self) -> nat {
        self.inner.active()
    }

    closed spec fn steady(&self) -> bool {
        self.inner.steady()
    }

    proof fn inv_facts(&self) {
        self.inner.inv_facts();
        visible_is_live_range(
            self.inner.remaining(),
            bound::bytes_bound(self.end_bound),
        );
        if self.is_valid {
            visible_step(self.inner.remaining(), bound::bytes_bound(self.end_bound));
        }
    }

    fn is_valid(&self) -> (r: bool) {
        proof {
            if self.is_valid {
                visible_step(self.inner.remaining(), bound::bytes_bound(self.end_bound));
            }
        }
        self.is_valid
    }

    fn key(&self) -> (r: &[u8]) {
        proof {
            visible_step(self.inner.remaining(), bound::bytes_bound(self.end_bound));
        }
        self.inner.key().raw_ref()
    }

    fn value(&self) -> (r: &[u8]) {
        proof {
            visible_step(self.inner.remaining(), bound::bytes_bound(self.end_bound));
        }
        self.inner.value()
    }

    fn next(&mut self) -> (r: Result<(), StorageError>)
        ensures
            r is Ok && old(self).remaining().len() == 0 ==> final(self).remaining().len() == 0,
    {
        proof {
            visible_step(self.inner.remaining(), bound::bytes_bound(self.end_bound));
        }
        // One user-visible step may advance several raw entries: consume the current key, then
        // skip any deleted keys that follow it.
        self.next_inner()?;
        proof {
            if old(self).remaining().len() > 0 {
                assert(self.shown() =~= old(self).remaining().drop_first());
            }
        }
        self.move_to_non_delete()?;
        Ok(())
    }

    fn num_active_iterators(&self) -> (r: usize) {
        self.inner.num_active_iterators()
    }
}

/// A wrapper around an existing iterator that keeps callers from advancing it when it is invalid.
/// If the iterator is already invalid, `next` does not do anything. If `next` returns an error,
/// `is_valid` is false from then on, and `next` always returns an error.
pub struct FusedIterator<I: StorageIterator> {
    iter: I,
    has_errored: bool,
}

impl<I: StorageIterator> FusedIterator<I> {
    /// An earlier `next` failed.
    pub closed spec fn errored(&self) -> bool {
        self.has_errored
    }

    /// The wrapped iterator.
    pub closed spec fn inner(&self) -> I {
        self.iter
    }

    pub fn new(iter: I) -> (r: Self)
        requires
            iter.inv(),
        ensures
            r.inv(),
            !r.errored(),
            r.inner() == iter,
            r.remaining() == iter.remaining(),
            r.active() == iter.active(),
            r.steady() == iter.steady(),
            forall|e: StorageError| #[trigger] r.can_fail(e) == iter.can_fail(e),
    {
        Self { iter, has_errored: false }
    }

    /// Takes note of how an advance of the wrapped iterator went: an error is permanent, since it
    /// can leave children partially advanced.
    pub fn settle(&mut self, outcome: Result<(), StorageError>) -> (r: Result<(), StorageError>)
        ensures
            r == outcome,
            final(self).inner() == old(self).inner(),
            final(self).errored() == (old(self).errored() || outcome is Err),
    {
        if outcome.is_err() {
            self.has_errored = true;
        }
        outcome
    }
}

impl<I: StorageIterator> StorageIterator for FusedIterator<I> {
    type Keys = I::Keys;

    closed spec fn inv(&self) -> bool {
        self.has_errored || self.iter.inv()
    }

    closed spec fn remaining(&self) -> Run<<Self::Keys as KeyFamily>::Model> {
        if self.has_errored {
            Seq::empty()
        } else {
            self.iter.remaining()
        }
    }

    open spec fn may_advance(&self) -> bool {
        true
    }

    closed spec fn can_fail(&self, e: StorageError) -> bool {
        if self.has_errored {
            e == StorageError::Tainted
        } else {
            self.iter.can_fail(e)
        }
    }

    closed spec fn active(&self) -> nat {
        self.iter.active()
    }

    closed spec fn steady(&self) -> bool {
        self.iter.steady()
    }

    proof fn inv_facts(&self) {
        if !self.has_errored {
            self.iter.inv_facts();
        }
    }

    fn is_valid(&self) -> (r: bool)
        ensures
            self.errored() ==> !r,
    {
        // Even if a child still reports a position, an earlier error taints it.
        !self.has_errored && self.iter.is_valid()
    }

    fn key(&self) -> (r: <Self::Keys as KeyFamily>::Key<'_>) {
        self.iter.key()
    }

    fn value(&self) -> (r: &[u8]) {
        self.iter.value()
    }

    fn next(&mut self) -> (r: Result<(), StorageError>)
        ensures
            final(self).inv(),
            final(self).errored() == (old(self).errored() || r is Err),
            old(self).errored() ==> r == Err::<(), StorageError>(StorageError::Tainted)
                && *final(self) == *old(self),
            !old(self).errored() && old(self).remaining().len() == 0 ==> r is Ok && *final(self)
                == *old(self),
            r is Err ==> final(self).remaining().len() == 0,
            !final(self).errored() ==> final(self).remaining()
                == final(self).inner().remaining(),
    {
        if self.has_errored {
            return Err(StorageError::Tainted);
        }
        // Normal exhaustion is different from failure: after reaching the end, repeated calls
        // succeed without touching the inner cursor.
        if self.iter.is_valid() {
            proof {
                self.iter.inv_facts();
            }
            let outcome = self.iter.next();
            return self.settle(outcome);
        }
        Ok(())
    }

    fn num_active_iterators(&self) -> (r: usize) {
        self.iter.num_active_iterators()
    }
}

} // verus!
