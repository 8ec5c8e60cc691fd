//! Cursors over one table.

use vstd::prelude::*;
use std::sync::Arc;
use crate::bound;
use crate::error::StorageError;
use crate::iterators::StorageIterator;
use crate::key;
use crate::key::{bytes_less, KeyModel, KeySlice, StorageKey, UserKeys};
use crate::run;
use crate::run::Run;
use crate::table::SsTable;

verus! {

/// An iterator over the contents of an SSTable.
pub struct SsTableIterator {
    table: Arc<SsTable>,
    idx: usize,
}

impl SsTableIterator {
    /// Positions a cursor on the first entry.
    pub fn create_and_seek_to_first(table: Arc<SsTable>) -> (r: Self)
        requires
            table.wf(),
        ensures
            r.inv(),
            r.remaining() == table@.run,
            r.active() == 1,
            forall|e: StorageError| !(#[trigger] r.can_fail(e)),
    {
        assert(table@.run.skip(0) =~= table@.run);
        SsTableIterator { table, idx: 0 }
    }

    /// Positions a cursor on the first entry whose key is not before `key`.
    pub fn create_and_seek_to_key(table: Arc<SsTable>, key: KeySlice<'_>) -> (r: Self)
        requires
            table.wf(),
        ensures
            r.inv(),
            r.remaining() == bound::seek(table@.run, key.bytes()),
            r.active() == 1,
            forall|e: StorageError| !(#[trigger] r.can_fail(e)),
    {
        let ghost s = table@.run;
        let mut low: usize = 0;
        let mut high: usize = table.num_of_entries();
        while low < high
            invariant
                low <= high <= s.len(),
                s == table@.run,
                run::sorted(s),
                forall|i: int| 0 <= i < low ==> (#[trigger] s[i]).0.lt(key.bytes()),
                forall|i: int| high <= i < s.len() ==> !(#[trigger] s[i]).0.lt(key.bytes()),
            decreases high - low,
        {
            let mid: usize = low + (high - low) / 2;
            proof {
                broadcast use key::group_key_order;

                assert forall|i: int| 0 <= i < mid implies (#[trigger] s[i]).0.lt(
                    s[mid as int].0,
                ) by {}
                assert forall|i: int| mid < i < s.len() implies s[mid as int].0.lt(
                    (#[trigger] s[i]).0,
                ) by {}
            }
            let less: bool = bytes_less(table.key_at(mid).raw_ref(), key.raw_ref());
            proof {
                broadcast use key::group_key_order;

                assert(less == s[mid as int].0.lt(key.bytes()));
            }
            if less {
                low = mid + 1;
            } else {
                high = mid;
            }
        }
        proof {
            bound::seek_at(s, key.bytes(), low as int);
        }
        SsTableIterator { table, idx: low }
    }
}

impl StorageIterator for SsTableIterator {
    type Keys = UserKeys;

    closed spec fn inv(&self) -> bool {
        self.table.wf() && self.idx <= self.table@.run.len()
    }

    closed spec fn remaining(&self) -> Run<Seq<u8>> {
        self.table@.run.skip(self.idx as int)
    }

    open spec fn may_advance(&self) -> bool {
        true
    }

    closed spec fn can_fail(&self, e: StorageError) -> bool {
        false
    }

    open spec fn steady(&self) -> bool {
        true
    }

    proof fn inv_facts(&self) {
    }

    fn is_valid(&self) -> (r: bool) {
        self.idx < self.table.num_of_entries()
    }

    fn key(&self) -> (r: KeySlice<'_>) {
        assert(self.remaining()[0] == self.table@.run[self.idx as int]);
        let k = self.table.key_at(self.idx);
        assert(k.model() == k.bytes());
        k
    }

    fn value(&self) -> (r: &[u8]) {
        assert(self.remaining()[0] == self.table@.run[self.idx as int]);
        self.table.value_at(self.idx)
    }

    fn next(&mut self) -> (r: Result<(), StorageError>)
        ensures
            r is Ok,
            old(self).remaining().len() == 0 ==> *final(self) == *old(self),
    {
        if self.idx < self.table.num_of_entries() {
            self.idx = self.idx + 1;
            assert(self.remaining() =~= old(self).remaining().drop_first());
        }
        Ok(())
    }

    fn num_active_iterators(&self) -> (r: usize) {
        1
    }
}

} // verus!
