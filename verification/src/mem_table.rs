//! The in-memory sorted table that receives writes.

use vstd::prelude::*;
use std::ops::Bound;
use bytes::Bytes;
use crossbeam_skiplist::SkipMap;
use crate::bound;
use crate::bound::map_bound;
use crate::bytes_spec;
use crate::error::StorageError;
use crate::iterators::StorageIterator;
use crate::key;
use crate::key::{KeyModel, KeySlice, UserKeys};
use crate::run;
use crate::run::{Entries, Run};
use crate::skip_map_spec;
use crate::table::SsTableBuilder;

verus! {

/// What a memtable is: its id, its entries, the bytes submitted to it so far, and whether a
/// write-ahead log with the same id goes along with it.
#[verifier::ext_equal]
pub struct MemView {
    pub id: usize,
    pub entries: Entries,
    pub size: usize,
    pub logged: bool,
}

/// A basic mem-table based on crossbeam-skiplist.
pub struct MemTable {
    map: SkipMap<Bytes, Bytes>,
    wal: bool,
    id: usize,
    approximate_size: usize,
}

impl View for MemTable {
    type V = MemView;

    closed spec fn view(&self) -> MemView {
        MemView {
            id: self.id,
            entries: skip_map_spec::skip_map_entries(self.map),
            size: self.approximate_size,
            logged: self.wal,
        }
    }
}

/// The log that goes along with a memtable.
pub open spec fn log_of(m: MemView) -> Option<usize> {
    if m.logged {
        Some(m.id)
    } else {
        None
    }
}

/// A memtable without entries.
pub open spec fn fresh(id: usize, logged: bool) -> MemView {
    MemView { id, entries: Entries::empty(), size: 0, logged }
}

/// A memtable after an entry was put into it. The size counts every submission, overwrites as
/// well, and goes round at the end of the machine's range.
pub open spec fn put_entry(m: MemView, k: Seq<u8>, v: Seq<u8>) -> MemView {
    MemView {
        entries: m.entries.insert(k, v),
        size: m.size.wrapping_add((k.len() + v.len()) as usize),
        ..m
    }
}

/// The entries that a log leaves when it is replayed in the order in which it was written.
pub open spec fn replay(records: Run<Seq<u8>>) -> Entries
    decreases records.len(),
{
    if records.len() == 0 {
        Map::empty()
    } else {
        replay(records.drop_last()).insert(records.last().0, records.last().1)
    }
}

/// The bytes that entries submit: for each one the length of its key and of its value.
pub open spec fn submitted(puts: Seq<(Seq<u8>, Seq<u8>)>) -> nat
    decreases puts.len(),
{
    if puts.len() == 0 {
        0
    } else {
        submitted(puts.drop_last()) + puts.last().0.len() + puts.last().1.len()
    }
}

/// A memtable after entries were put into it one after the other.
pub open spec fn put_all(m: MemView, puts: Seq<(Seq<u8>, Seq<u8>)>) -> MemView
    decreases puts.len(),
{
    if puts.len() == 0 {
        m
    } else {
        put_entry(put_all(m, puts.drop_last()), puts.last().0, puts.last().1)
    }
}

/// **The size of a memtable counts the bytes submitted to it**, overwrites as well, as long as the
/// count fits the machine. It starts at nothing.
pub proof fn size_counts_submitted_bytes(
    id: usize,
    logged: bool,
    puts: Seq<(Seq<u8>, Seq<u8>)>,
)
    requires
        submitted(puts) <= usize::MAX,
    ensures
        put_all(fresh(id, logged), puts).size == submitted(puts),
        put_all(fresh(id, logged), puts).id == id,
        put_all(fresh(id, logged), puts).logged == logged,
    decreases puts.len(),
{
    if puts.len() > 0 {
        size_counts_submitted_bytes(id, logged, puts.drop_last());
    }
}

/// **What is put into a memtable is in it**: the key has the value, no other key is touched, and
/// the size grows by the bytes submitted.
pub proof fn put_adds_entry(m: MemView, k: Seq<u8>, v: Seq<u8>)
    ensures
        put_entry(m, k, v).entries.contains_key(k),
        put_entry(m, k, v).entries[k] == v,
        forall|j: Seq<u8>|
            j != k ==> (#[trigger] put_entry(m, k, v).entries.contains_key(j)
                <==> m.entries.contains_key(j)),
        forall|j: Seq<u8>|
            j != k && m.entries.contains_key(j) ==> #[trigger] put_entry(m, k, v).entries[j]
                == m.entries[j],
        m.size + k.len() + v.len() <= usize::MAX ==> put_entry(m, k, v).size == m.size + k.len()
            + v.len(),
        k.len() + v.len() <= usize::MAX < m.size + k.len() + v.len() ==> put_entry(m, k, v).size
            == m.size + k.len() + v.len() - usize::MAX - 1,
        put_entry(m, k, v).id == m.id,
        put_entry(m, k, v).logged == m.logged,
{
}

/// **A memory cursor shows all entries in order**, where none has the empty key.
pub proof fn cursor_shows_all(m: Entries)
    requires
        m.dom().finite(),
        !m.contains_key(Seq::empty()),
    ensures
        run::sorted(cursor_run(m)),
        forall|k: Seq<u8>, v: Seq<u8>| #[trigger]
            cursor_run(m).contains((k, v)) <==> m.contains_key(k) && m[k] == v,
{
    run::listing_exists(m);
    let s = cursor_run(m);
    assert forall|k: Seq<u8>, v: Seq<u8>| #[trigger] s.contains((k, v)) <==> m.contains_key(k)
        && m[k] == v by {
        if s.contains((k, v)) {
            let i = choose|i: int| 0 <= i < s.len() && s[i] == (k, v);
            run::run_map_at(s, i);
        }
        if m.contains_key(k) && m[k] == v {
            let i = run::run_map_find(s, k);
            assert(s[i] == (k, v));
        }
    }
}

/// **An empty key ends a memory cursor**: it comes first of all, so that nothing is shown.
pub proof fn empty_key_ends_cursor(m: Entries)
    requires
        m.contains_key(Seq::empty()),
    ensures
        cursor_run(m).len() == 0,
{
}

/// **A log leaves the last record of each key.**
pub proof fn replay_leaves_last_record(records: Run<Seq<u8>>, i: int)
    requires
        0 <= i < records.len(),
        forall|j: int| i < j < records.len() ==> (#[trigger] records[j]).0 != records[i].0,
    ensures
        replay(records).contains_key(records[i].0),
        replay(records)[records[i].0] == records[i].1,
    decreases records.len(),
{
    let n = records.len() - 1;
    if i < n {
        let rest = records.drop_last();
        assert(records[n].0 != records[i].0);
        assert forall|j: int| i < j < rest.len() implies (#[trigger] rest[j]).0 != rest[i].0 by {
            assert(rest[j] == records[j]);
        }
        replay_leaves_last_record(rest, i);
    }
}

/// **A log leaves no key that it does not name.**
pub proof fn replay_leaves_nothing_else(records: Run<Seq<u8>>, k: Seq<u8>)
    requires
        forall|i: int| 0 <= i < records.len() ==> (#[trigger] records[i]).0 != k,
    ensures
        !replay(records).contains_key(k),
    decreases records.len(),
{
    if records.len() > 0 {
        let rest = records.drop_last();
        assert(records[records.len() - 1].0 != k);
        assert forall|i: int| 0 <= i < rest.len() implies (#[trigger] rest[i]).0 != k by {
            assert(rest[i] == records[i]);
        }
        replay_leaves_nothing_else(rest, k);
    }
}

/// A log leaves finitely many entries.
pub proof fn replay_finite(records: Run<Seq<u8>>)
    ensures
        replay(records).dom().finite(),
    decreases records.len(),
{
    if records.len() > 0 {
        replay_finite(records.drop_last());
        let before = replay(records.drop_last());
        assert(replay(records).dom() =~= before.dom().insert(records.last().0));
    }
}

/// What a memory cursor shows of some entries. It takes an empty key for the end, and the empty
/// key comes first of all.
pub open spec fn cursor_run(m: Entries) -> Run<Seq<u8>> {
    if m.contains_key(Seq::empty()) {
        Seq::empty()
    } else {
        run::listing(m)
    }
}

impl MemTable {
    /// The table holds finitely many entries.
    pub open spec fn wf(&self) -> bool {
        self@.entries.dom().finite()
    }

    /// Create a new mem-table.
    pub fn create(id: usize) -> (r: Self)
        ensures
            r.wf(),
            r@ == fresh(id, false),
    {
        MemTable { id, map: skip_map_spec::skip_map_new(), wal: false, approximate_size: 0 }
    }

    /// Create a new mem-table that has a write-ahead log.
    pub fn create_with_wal(id: usize) -> (r: Self)
        ensures
            r.wf(),
            r@ == fresh(id, true),
    {
        MemTable { id, map: skip_map_spec::skip_map_new(), wal: true, approximate_size: 0 }
    }

    /// Create a memtable from the records of its write-ahead log. The size starts anew.
    pub fn recover_from_wal(id: usize, records: &Vec<(Bytes, Bytes)>) -> (r: Self)
        ensures
            r.wf(),
            r@ == (MemView {
                entries: replay(skip_map_spec::run_of(records@)),
                ..fresh(id, true)
            }),
    {
        let ghost all = skip_map_spec::run_of(records@);
        let mut map = skip_map_spec::skip_map_new();
        let mut i: usize = 0;
        while i < records.len()
            invariant
                i <= records@.len(),
                all == skip_map_spec::run_of(records@),
                skip_map_spec::skip_map_entries(map) == replay(all.take(i as int)),
                skip_map_spec::skip_map_entries(map).dom().finite(),
            decreases records@.len() - i,
        {
            assert(all.take(i + 1).drop_last() =~= all.take(i as int));
            skip_map_spec::skip_map_insert(&mut map, records[i].0.clone(), records[i].1.clone());
            i = i + 1;
        }
        assert(all.take(i as int) =~= all);
        MemTable { id, map, wal: true, approximate_size: 0 }
    }

    /// Get the raw stored value: None means absent here, while Some(empty) is a tombstone.
    pub fn get(&self, key: &[u8]) -> (r: Option<Bytes>)
        ensures
            r is Some <==> self@.entries.contains_key(key@),
            r matches Some(v) ==> bytes_spec::bytes_of(v) == self@.entries[key@],
    {
        skip_map_spec::skip_map_get(&self.map, key)
    }

    /// Put a key-value pair into the mem-table. There is one entry per key: a second value
    /// replaces the first, and an empty value keeps a deletion marker.
    ///
    /// Memory changes before the log does: the result names the log, if there is one, to which the
    /// entry has to be appended now.
    pub fn put(&mut self, key: &[u8], value: &[u8]) -> (r: Option<usize>)
        requires
            old(self).wf(),
            key@.len() + value@.len() <= usize::MAX,
        ensures
            final(self).wf(),
            final(self)@ == put_entry(old(self)@, key@, value@),
            r == log_of(old(self)@),
    {
        let estimated_size: usize = key.len() + value.len();
        skip_map_spec::skip_map_insert(
            &mut self.map,
            Bytes::copy_from_slice(key),
            Bytes::copy_from_slice(value),
        );
        self.approximate_size = self.approximate_size.wrapping_add(estimated_size);
        self.sync_wal()
    }

    /// The log, if there is one, that has to be synced to make the table durable.
    pub fn sync_wal(&self) -> (r: Option<usize>)
        ensures
            r == log_of(self@),
    {
        if self.wal {
            Some(self.id)
        } else {
            None
        }
    }

    /// Get an iterator over a range of keys.
    pub fn scan(&self, lower: Bound<&[u8]>, upper: Bound<&[u8]>) -> (r: MemTableIterator<'_>)
        requires
            self.wf(),
        ensures
            r.inv(),
            r.remaining() == cursor_run(
                bound::range_of(
                    self@.entries,
                    bound::slice_bound(lower),
                    bound::slice_bound(upper),
                ),
            ),
            r.active() == 1,
            forall|e: StorageError| !(#[trigger] r.can_fail(e)),
            bound::range_of(
                self@.entries,
                bound::slice_bound(lower),
                bound::slice_bound(upper),
            ) == Entries::empty() ==> r.ended(),
    {
        let (lower, upper) = (map_bound(lower), map_bound(upper));
        let mut iter = MemTableIterator {
            map: &self.map,
            lower,
            upper,
            item: (Bytes::new(), Bytes::new()),
        };
        let ghost range = iter.range();
        proof {
            iter.range_finite();
        }
        // Prime the cursor: item starts empty, but callers expect the first entry.
        iter.advance();
        proof {
            broadcast use key::empty_is_least;

            if range.contains_key(Seq::empty()) {
                assert(key::le(iter.current().0, Seq::<u8>::empty()));
            } else if range == Entries::empty() {
                run::listing_of_nothing(range);
            } else if iter.current().0.len() == 0 {
                assert(iter.current().0 =~= Seq::empty());
            }
            assert(iter.remaining() =~= cursor_run(range));
        }
        iter
    }

    /// Flush the mem-table to SSTable: every entry in order, deletion markers as well, because
    /// older tables still need them.
    pub fn flush(&self, builder: &mut SsTableBuilder)
        requires
            self.wf(),
            old(builder).wf(),
            forall|i: int, k: Seq<u8>|
                0 <= i < old(builder)@.len() && #[trigger] self@.entries.contains_key(k) ==> (
                #[trigger] old(builder)@[i]).0.lt(k),
        ensures
            final(builder).wf(),
            final(builder)@ == old(builder)@ + run::listing(self@.entries),
    {
        let entries = skip_map_spec::skip_map_entries_in_order(&self.map);
        let ghost all = skip_map_spec::run_of(entries@);
        let ghost before = builder@;
        proof {
            assert(before + all.take(0) =~= before);
            run::listing_of_run(all);
        }
        let mut i: usize = 0;
        while i < entries.len()
            invariant
                i <= entries@.len(),
                all == skip_map_spec::run_of(entries@),
                run::sorted(all),
                run::run_map(all) == self@.entries,
                forall|i: int, k: Seq<u8>|
                    0 <= i < before.len() && #[trigger] self@.entries.contains_key(k) ==> (
                    #[trigger] before[i]).0.lt(k),
                builder.wf(),
                builder@ == before + all.take(i as int),
            decreases entries@.len() - i,
        {
            proof {
                run::run_map_at(all, i as int);
                assert forall|j: int| 0 <= j < builder@.len() implies (
                #[trigger] builder@[j]).0.lt(all[i as int].0) by {
                    if j < before.len() {
                        assert(builder@[j] == before[j]);
                    } else {
                        assert(builder@[j] == all[j - before.len()]);
                    }
                }
            }
            builder.add(
                KeySlice::from_slice(bytes_spec::as_slice(&entries[i].0)),
                bytes_spec::as_slice(&entries[i].1),
            );
            assert(before + all.take(i + 1) =~= (before + all.take(i as int)).push(all[i as int]));
            i = i + 1;
        }
        assert(all.take(i as int) =~= all);
    }

    pub fn for_testing_put_slice(&mut self, key: &[u8], value: &[u8]) -> (r: Option<usize>)
        requires
            old(self).wf(),
            key@.len() + value@.len() <= usize::MAX,
        ensures
            final(self).wf(),
            final(self)@ == put_entry(old(self)@, key@, value@),
            r == log_of(old(self)@),
    {
        self.put(key, value)
    }

    pub fn for_testing_get_slice(&self, key: &[u8]) -> (r: Option<Bytes>)
        ensures
            r is Some <==> self@.entries.contains_key(key@),
            r matches Some(v) ==> bytes_spec::bytes_of(v) == self@.entries[key@],
    {
        self.get(key)
    }

    pub fn for_testing_scan_slice(
        &self,
        lower: Bound<&[u8]>,
        upper: Bound<&[u8]>,
    ) -> (r: MemTableIterator<'_>)
        requires
            self.wf(),
        ensures
            r.inv(),
            r.remaining() == cursor_run(
                bound::range_of(
                    self@.entries,
                    bound::slice_bound(lower),
                    bound::slice_bound(upper),
                ),
            ),
            r.active() == 1,
            forall|e: StorageError| !(#[trigger] r.can_fail(e)),
    {
        self.scan(lower, upper)
    }

    pub fn id(&self) -> (r: usize)
        ensures
            r == self@.id,
    {
        self.id
    }

    pub fn approximate_size(&self) -> (r: usize)
        ensures
            r == self@.size,
    {
        self.approximate_size
    }

    pub fn is_empty(&self) -> (r: bool)
        ensures
            r <==> self@.entries == Entries::empty(),
    {
        skip_map_spec::skip_map_is_empty(&self.map)
    }
}

/// An iterator over a range of a memtable. It walks by the keys: each step looks for the first
/// entry behind the current one.
pub struct MemTableIterator<'a> {
    map: &'a SkipMap<Bytes, Bytes>,
    // Where the entries ahead start, and where they end.
    lower: Bound<Bytes>,
    upper: Bound<Bytes>,
    // The current key-value pair; an empty key marks exhaustion.
    item: (Bytes, Bytes),
}

impl<'a> MemTableIterator<'a> {
    spec fn all(&self) -> Entries {
        skip_map_spec::skip_map_entries(*self.map)
    }

    /// The entries behind the current one.
    spec fn range(&self) -> Entries {
        bound::range_of(
            self.all(),
            bound::bytes_bound(self.lower),
            bound::bytes_bound(self.upper),
        )
    }

    /// The cursor is past the last entry of its range.
    pub closed spec fn ended(&self) -> bool {
        self.current().0.len() == 0 && self.range() == Entries::empty()
    }

    /// **A cursor that is past its range shows nothing.**
    pub proof fn ended_shows_nothing(&self)
        requires
            self.ended(),
        ensures
            self.remaining().len() == 0,
    {
    }

    spec fn current(&self) -> (Seq<u8>, Seq<u8>) {
        (bytes_spec::bytes_of(self.item.0), bytes_spec::bytes_of(self.item.1))
    }

    proof fn range_finite(&self)
        requires
            self.all().dom().finite(),
        ensures
            self.range().dom().finite(),
    {
        assert(self.range().dom().subset_of(self.all().dom()));
        vstd::set_lib::lemma_set_subset_finite(self.all().dom(), self.range().dom());
    }

    fn entry_to_item(entry: Option<(Bytes, Bytes)>) -> (r: (Bytes, Bytes))
        ensures
            entry matches Some(e) ==> r == e,
            entry is None ==> bytes_spec::bytes_of(r.0).len() == 0 && bytes_spec::bytes_of(
                r.1,
            ).len() == 0,
    {
        match entry {
            Some(e) => e,
            None => (Bytes::new(), Bytes::new()),
        }
    }

    /// Takes the first of the entries ahead for the current one.
    fn advance(&mut self)
        requires
            old(self).all().dom().finite(),
        ensures
            final(self).inv(),
            final(self).all() == old(self).all(),
            old(self).range() != Entries::empty() ==> {
                let k = final(self).current().0;
                &&& old(self).range().contains_key(k)
                &&& final(self).current().1 == old(self).range()[k]
                &&& forall|j: Seq<u8>| #[trigger]
                    old(self).range().contains_key(j) ==> key::le(k, j)
                &&& k.len() > 0 ==> final(self).remaining() == run::listing(old(self).range())
            },
            old(self).range() == Entries::empty() ==> final(self).remaining().len() == 0
                && final(self).ended(),
    {
        let entry = skip_map_spec::skip_map_first_between(self.map, &self.lower, &self.upper);
        let ghost before = self.range();
        proof {
            self.range_finite();
        }
        if let Some(e) = &entry {
            self.lower = Bound::Excluded(e.0.clone());
        }
        self.item = Self::entry_to_item(entry);
        proof {
            if entry is Some {
                broadcast use key::group_key_order;

                let k = self.current().0;
                assert(self.range() =~= before.remove(k));
                run::listing_head(before, k);
            }
        }
    }
}

impl<'a> StorageIterator for MemTableIterator<'a> {
    type Keys = UserKeys;

    closed spec fn inv(&self) -> bool {
        &&& self.all().dom().finite()
        &&& self.current().0.len() > 0 ==> bound::bytes_bound(self.lower) == Bound::Excluded(
            self.current().0,
        )
    }

    closed spec fn remaining(&self) -> Run<Seq<u8>> {
        if self.current().0.len() == 0 {
            Seq::empty()
        } else {
            seq![self.current()] + run::listing(self.range())
        }
    }

    open spec fn may_advance(&self) -> bool {
        true
    }

    closed spec fn can_fail(&self, e: StorageError) -> bool {
        false
    }

    open spec fn steady(&self) -> bool {
        true
    }

    proof fn inv_facts(&self) {
        if self.current().0.len() > 0 {
            self.range_finite();
            run::listing_exists(self.range());
            run::run_map_prepend(self.current(), run::listing(self.range()));
        }
    }

    fn value(&self) -> (r: &[u8]) {
        bytes_spec::as_slice(&self.item.1)
    }

    fn key(&self) -> (r: KeySlice<'_>) {
        KeySlice::from_slice(bytes_spec::as_slice(&self.item.0))
    }

    fn is_valid(&self) -> (r: bool) {
        // Empty keys mark exhaustion; empty values mark deletions and remain valid.
        !self.item.0.is_empty()
    }

    fn next(&mut self) -> (r: Result<(), StorageError>)
        ensures
            r is Ok,
            old(self).ended() ==> final(self).ended(),
            old(self).remaining().len() == 1 ==> final(self).ended(),
    {
        proof {
            self.range_finite();
            if self.remaining().len() == 1 {
                assert(self.remaining().len() == 1 + run::listing(self.range()).len());
                run::listing_exists(self.range());
                run::run_map_empty(run::listing(self.range()));
            }
        }
        self.advance();
        proof {
            broadcast use key::empty_is_least;

            if old(self).remaining().len() > 0 {
                let rest = old(self).range();
                assert(old(self).remaining().drop_first() =~= run::listing(rest));
                if rest == Entries::empty() {
                    run::listing_of_nothing(rest);
                    assert(self.remaining() =~= run::listing(rest));
                }
            }
        }
        Ok(())
    }

    fn num_active_iterators(&self) -> (r: usize) {
        1
    }
}

} // verus!
