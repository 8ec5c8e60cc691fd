//! Cursors over sorted entries, and the cursors that merge others.

use vstd::prelude::*;
use crate::error::StorageError;
use crate::key::KeyFamily;
use crate::run;
use crate::run::Run;

pub mod concat_iterator;
pub mod merge_iterator;
pub mod two_merge_iterator;

verus! {

/// A cursor over sorted entries: check `is_valid()`, read `key()` / `value()`, then call `next()`.
/// Constructors position the cursor on the first candidate before they return. An empty value can
/// be a valid tombstone; validity is about the position alone.
///
/// The model of a cursor is the run of entries from its position on. A cursor need not support
/// `next()` once it is exhausted, and nothing is known of its position after an error.
pub trait StorageIterator {
    /// The kind of key that the cursor lends.
    type Keys: KeyFamily;

    /// The cursor is positioned.
    spec fn inv(&self) -> bool;

    /// The entries from the current one on.
    spec fn remaining(&self) -> Run<<Self::Keys as KeyFamily>::Model>;

    /// `next()` may be called here; on an entry, where a cursor does not say otherwise.
    open spec fn may_advance(&self) -> bool {
        self.remaining().len() > 0
    }

    /// `e` is an error that advancing can meet; any, where a cursor does not say otherwise.
    open spec fn can_fail(&self, e: StorageError) -> bool {
        true
    }

    /// How many underlying cursors are active; one, where a cursor does not say otherwise.
    open spec fn active(&self) -> nat {
        1
    }

    /// Advancing leaves the number of active cursors as it is; not promised, where a cursor does
    /// not say so.
    open spec fn steady(&self) -> bool {
        false
    }

    /// The entries ahead are sorted, and a cursor that has an entry can leave it.
    proof fn inv_facts(&self)
        requires
            self.inv(),
        ensures
            run::sorted(self.remaining()),
            self.remaining().len() > 0 ==> self.may_advance(),
    ;

    /// Get the current value.
    fn value(&self) -> (r: &[u8])
        requires
            self.inv(),
            self.remaining().len() > 0,
        ensures
            r@ == self.remaining()[0].1,
    ;

    /// Get the current key.
    fn key(&self) -> (r: <Self::Keys as KeyFamily>::Key<'_>)
        requires
            self.inv(),
            self.remaining().len() > 0,
        ensures
            crate::key::StorageKey::model(&r) == self.remaining()[0].0,
    ;

    /// Check if the current iterator is valid.
    fn is_valid(&self) -> (r: bool)
        requires
            self.inv(),
        ensures
            r == (self.remaining().len() > 0),
    ;

    /// Move to the next position.
    fn next(&mut self) -> (r: Result<(), StorageError>)
        requires
            old(self).inv(),
            old(self).may_advance(),
        ensures
            r is Ok ==> final(self).inv(),
            r is Ok && old(self).remaining().len() > 0 ==> final(self).remaining() == old(
                self,
            ).remaining().drop_first(),
            r is Ok ==> forall|e: StorageError|
                #[trigger] final(self).can_fail(e) == old(self).can_fail(e),
            r is Ok && old(self).steady() ==> final(self).steady() && final(self).active() == old(
                self,
            ).active(),
            r matches Err(e) ==> old(self).can_fail(e),
    ;

    /// Number of underlying active iterators for this iterator.
    fn num_active_iterators(&self) -> (r: usize)
        requires
            self.active() <= usize::MAX,
        ensures
            r == self.active(),
    ;
}

} // verus!
