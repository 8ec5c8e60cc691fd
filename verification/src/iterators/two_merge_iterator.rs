//! Merging two cursors of different types.

use vstd::prelude::*;
use crate::error::StorageError;
use crate::iterators::StorageIterator;
use crate::key;
use crate::key::{KeyFamily, KeyModel, StorageKey};
use crate::run;
use crate::run::Run;

verus! {

/// Merges two iterators of different types into one. If the two iterators have the same key, only
/// produce the key once and prefer the entry from A.
///
/// Source priority comes from the caller: A wins ties, irrespective of value. The cursors are
/// stored; `key()` and `value()` borrow from the winner and `next()` advances lazily.
pub struct TwoMergeIterator<A: StorageIterator, B: StorageIterator<Keys = A::Keys>> {
    a: A,
    b: B,
    // Cached selection for key(), value(), and is_valid(); not a recency flag.
    choose_a: bool,
}

/// Both runs have an entry left, and it is the same key.
pub open spec fn tied<K: KeyModel>(a: Run<K>, b: Run<K>) -> bool {
    a.len() > 0 && b.len() > 0 && a[0].0 == b[0].0
}

/// The next entry to hand out is that of the first run.
pub open spec fn head_is_a<K: KeyModel>(a: Run<K>, b: Run<K>) -> bool {
    a.len() > 0 && (b.len() == 0 || a[0].0.lt(b[0].0))
}

/// On a tie, the second run's entry adds nothing to the merge.
proof fn merge2_skip_b<K: KeyModel>(a: Run<K>, b: Run<K>)
    requires
        run::sorted(b),
        tied(a, b),
    ensures
        run::merge2(a, b) == run::merge2(a, b.drop_first()),
        !tied(a, b.drop_first()),
{
    broadcast use key::group_key_order;

    let rest = b.drop_first();
    if rest.len() > 0 {
        assert(b[0].0.lt(b[1].0));
        assert(rest[0] == b[1]);
    } else {
        assert(run::merge2(a.drop_first(), rest) =~= a.drop_first());
        assert(a =~= seq![a[0]] + a.drop_first());
    }
}

/// Without a tie, the merge starts with the chosen run's entry.
proof fn merge2_head<K: KeyModel>(a: Run<K>, b: Run<K>)
    requires
        !tied(a, b),
    ensures
        head_is_a(a, b) ==> run::merge2(a, b) == seq![a[0]] + run::merge2(a.drop_first(), b),
        !head_is_a(a, b) && b.len() > 0 ==> run::merge2(a, b) == seq![b[0]] + run::merge2(
            a,
            b.drop_first(),
        ),
        !head_is_a(a, b) && b.len() == 0 ==> run::merge2(a, b).len() == 0,
{
    broadcast use key::group_key_order;

    if a.len() > 0 && b.len() == 0 {
        assert(a =~= seq![a[0]] + a.drop_first());
        assert(run::merge2(a.drop_first(), b) =~= a.drop_first());
    } else if a.len() == 0 && b.len() > 0 {
        assert(b =~= seq![b[0]] + b.drop_first());
    }
}

impl<A: StorageIterator, B: StorageIterator<Keys = A::Keys>> TwoMergeIterator<A, B> {
    /// The cursor to be preferred on a tie.
    pub closed spec fn first(&self) -> A {
        self.a
    }

    /// The other cursor.
    pub closed spec fn second(&self) -> B {
        self.b
    }

    /// **The merged cursor shows the smaller of its children's entries**: no tie is left standing,
    /// so exactly one child shows the smallest key, and the entry is that child's. There is an
    /// entry exactly if a child has one.
    pub proof fn shows_the_smaller_child(&self)
        requires
            self.inv(),
        ensures
            self.first().inv(),
            self.second().inv(),
            !tied(self.first().remaining(), self.second().remaining()),
            self.remaining() == run::merge2(self.first().remaining(), self.second().remaining()),
            self.remaining().len() > 0 <==> self.first().remaining().len() > 0
                || self.second().remaining().len() > 0,
            self.remaining().len() > 0 ==> self.remaining()[0] == if head_is_a(
                self.first().remaining(),
                self.second().remaining(),
            ) {
                self.first().remaining()[0]
            } else {
                self.second().remaining()[0]
            },
            self.remaining().len() > 0 && self.first().remaining().len() > 0 ==> key::le(
                self.remaining()[0].0,
                self.first().remaining()[0].0,
            ),
            self.remaining().len() > 0 && self.second().remaining().len() > 0 ==> key::le(
                self.remaining()[0].0,
                self.second().remaining()[0].0,
            ),
            self.active() == self.first().active() + self.second().active(),
    {
        broadcast use key::group_key_order;

        merge2_head(self.a.remaining(), self.b.remaining());
    }

    fn choose_a(a: &A, b: &B) -> (r: bool)
        requires
            a.inv(),
            b.inv(),
        ensures
            r == head_is_a(a.remaining(), b.remaining()),
    {
        // Exhausted A selects B (even if B is also exhausted, making us invalid).
        // Otherwise, exhausted B selects A. Only compare keys when both are valid.
        if !a.is_valid() {
            return false;
        }
        if !b.is_valid() {
            return true;
        }
        // Ties are removed before, so a strict comparison is enough.
        a.key().less(&b.key())
    }

    /// When both cursors have the same key, keep A's entry and advance B past its copy. Values are
    /// not looked at, and each child holds a key only once, so one step removes the duplicate.
    fn skip_b(&mut self) -> (r: Result<(), StorageError>)
        requires
            old(self).a.inv(),
            old(self).b.inv(),
        ensures
            final(self).a == old(self).a,
            final(self).choose_a == old(self).choose_a,
            r is Ok ==> final(self).b.inv(),
            r is Ok ==> !tied(final(self).a.remaining(), final(self).b.remaining()),
            r is Ok ==> run::merge2(final(self).a.remaining(), final(self).b.remaining())
                == run::merge2(old(self).a.remaining(), old(self).b.remaining()),
            r is Ok && tied(old(self).a.remaining(), old(self).b.remaining())
                ==> final(self).b.remaining() == old(self).b.remaining().drop_first(),
            r is Ok ==> forall|e: StorageError|
                #[trigger] final(self).b.can_fail(e) == old(self).b.can_fail(e),
            r is Ok && old(self).b.steady() ==> final(self).b.steady() && final(self).b.active()
                == old(self).b.active(),
            !tied(old(self).a.remaining(), old(self).b.remaining()) ==> r is Ok && *final(self)
                == *old(self),
            r matches Err(e) ==> old(self).b.can_fail(e),
    {
        if self.a.is_valid() && self.b.is_valid() && self.b.key().same(&self.a.key()) {
            proof {
                self.b.inv_facts();
                merge2_skip_b(self.a.remaining(), self.b.remaining());
            }
            self.b.next()?;
        }
        Ok(())
    }

    /// Merges two positioned cursors. The initial position is normalized too: callers can read
    /// before they call `next()`.
    pub fn create(a: A, b: B) -> (r: Result<Self, StorageError>)
        requires
            a.inv(),
            b.inv(),
        ensures
            r matches Ok(iter) ==> {
                &&& iter.inv()
                &&& iter.remaining() == run::merge2(a.remaining(), b.remaining())
                &&& forall|e: StorageError|
                    #[trigger] iter.can_fail(e) == (a.can_fail(e) || b.can_fail(e))
                &&& iter.first() == a
                &&& iter.second().remaining() == if tied(a.remaining(), b.remaining()) {
                    b.remaining().drop_first()
                } else {
                    b.remaining()
                }
                &&& !tied(a.remaining(), b.remaining()) ==> iter.second() == b
                &&& !tied(a.remaining(), b.remaining()) ==> iter.active() == a.active() + b.active()
                &&& b.steady() ==> iter.active() == a.active() + b.active()
                &&& a.steady() && b.steady() ==> iter.steady()
            },
            !tied(a.remaining(), b.remaining()) ==> r is Ok,
            r matches Err(e) ==> b.can_fail(e),
    {
        let mut iter = Self { choose_a: false, a, b };
        iter.skip_b()?;
        iter.choose_a = Self::choose_a(&iter.a, &iter.b);
        Ok(iter)
    }
}

impl<A: StorageIterator, B: StorageIterator<Keys = A::Keys>> StorageIterator for TwoMergeIterator<
    A,
    B,
> {
    type Keys = A::Keys;

    closed spec fn inv(&self) -> bool {
        &&& self.a.inv()
        &&& self.b.inv()
        &&& !tied(self.a.remaining(), self.b.remaining())
        &&& self.choose_a == head_is_a(self.a.remaining(), self.b.remaining())
    }

    closed spec fn remaining(&self) -> Run<<Self::Keys as KeyFamily>::Model> {
        run::merge2(self.a.remaining(), self.b.remaining())
    }

    closed spec fn may_advance(&self) -> bool {
        if self.choose_a {
            self.a.may_advance()
        } else {
            self.b.may_advance()
        }
    }

    closed spec fn can_fail(&self, e: StorageError) -> bool {
        self.a.can_fail(e) || self.b.can_fail(e)
    }

    closed spec fn active(&self) -> nat {
        self.a.active() + self.b.active()
    }

    closed spec fn steady(&self) -> bool {
        self.a.steady() && self.b.steady()
    }

    proof fn inv_facts(&self) {
        self.a.inv_facts();
        self.b.inv_facts();
        run::merge2_is_overlay(self.a.remaining(), self.b.remaining());
        merge2_head(self.a.remaining(), self.b.remaining());
    }

    fn key(&self) -> (r: <Self::Keys as KeyFamily>::Key<'_>) {
        proof {
            merge2_head(self.a.remaining(), self.b.remaining());
        }
        if self.choose_a {
            self.a.key()
        } else {
            self.b.key()
        }
    }

    fn value(&self) -> (r: &[u8]) {
        proof {
            merge2_head(self.a.remaining(), self.b.remaining());
        }
        if self.choose_a {
            self.a.value()
        } else {
            self.b.value()
        }
    }

    fn is_valid(&self) -> (r: bool)
        ensures
            r == (self.first().remaining().len() > 0 || self.second().remaining().len() > 0),
    {
        proof {
            merge2_head(self.a.remaining(), self.b.remaining());
        }
        if self.choose_a {
            self.a.is_valid()
        } else {
            self.b.is_valid()
        }
    }

    fn next(&mut self) -> (r: Result<(), StorageError>)
        ensures
            r is Ok && old(self).remaining().len() > 0 ==> {
                let (a, b) = (old(self).first().remaining(), old(self).second().remaining());
                let (a1, b1) = if head_is_a(a, b) {
                    (a.drop_first(), b)
                } else {
                    (a, b.drop_first())
                };
                &&& final(self).first().remaining() == a1
                &&& final(self).second().remaining() == if tied(a1, b1) {
                    b1.drop_first()
                } else {
                    b1
                }
            },
            !head_is_a(old(self).first().remaining(), old(self).second().remaining())
                ==> final(self).first() == old(self).first(),
            r matches Err(e) ==> old(self).remaining().len() > 0 ==> {
                let (a, b) = (old(self).first().remaining(), old(self).second().remaining());
                if head_is_a(a, b) {
                    ||| old(self).first().can_fail(e)
                    ||| tied(a.drop_first(), b) && old(self).second().can_fail(e)
                } else {
                    old(self).second().can_fail(e)
                }
            },
    {
        proof {
            merge2_head(self.a.remaining(), self.b.remaining());
        }
        // Advance only the child that supplied the current output, then resolve any new tie before
        // exposing the next smallest key.
        if self.choose_a {
            self.a.next()?;
        } else {
            self.b.next()?;
        }
        proof {
            if old(self).remaining().len() > 0 {
                assert(run::merge2(self.a.remaining(), self.b.remaining()) =~= old(
                    self,
                ).remaining().drop_first());
            }
        }
        self.skip_b()?;
        self.choose_a = Self::choose_a(&self.a, &self.b);
        Ok(())
    }

    fn num_active_iterators(&self) -> (r: usize) {
        self.a.num_active_iterators() + self.b.num_active_iterators()
    }
}

} // verus!
