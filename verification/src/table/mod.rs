//! Immutable sorted tables.

use vstd::prelude::*;
use bytes::Bytes;
use crate::bytes_spec;
use crate::key;
use crate::key::{bytes_less, KeyModel, KeySlice};
use crate::run;
use crate::run::{Entries, Run};
use crate::skip_map_spec;
use crate::table::bloom::{Bloom, BITS_PER_KEY};
use crate::table::fingerprint::key_fingerprint;

pub mod bloom;
pub mod fingerprint;
pub mod iterator;

verus! {

/// What a table is: its id, its entries in order, and the bits of its bloom filter, if it has one.
#[verifier::ext_equal]
pub struct TableView {
    pub id: usize,
    pub run: Run<Seq<u8>>,
    pub filter: Option<Seq<bool>>,
}

impl TableView {
    /// The entries of the table.
    pub open spec fn entries(self) -> Entries {
        run::run_map(self.run)
    }

    /// The smallest key.
    pub open spec fn first(self) -> Seq<u8> {
        self.run[0].0
    }

    /// The largest key.
    pub open spec fn last(self) -> Seq<u8> {
        self.run.last().0
    }

    /// The table has an entry, its keys are in order, and its filter lets every key of it through,
    /// tombstones as well.
    pub open spec fn wf(self) -> bool {
        &&& self.run.len() > 0
        &&& run::sorted(self.run)
        &&& self.filter matches Some(bits) ==> {
            &&& 0 < bits.len() <= u32::MAX
            &&& forall|i: int|
                0 <= i < self.run.len() ==> filter_admits(self.filter, (#[trigger] self.run[i]).0)
        }
    }
}

/// The filter does not rule the key out. A key whose fingerprint cannot be computed without an
/// overflow is never ruled out: a read looks into the table and finds what is there.
pub open spec fn filter_admits(filter: Option<Seq<bool>>, k: Seq<u8>) -> bool {
    filter matches Some(bits) ==> !fingerprint::sums_fit(k) || bloom::covers(
        bits,
        fingerprint::fingerprint(k),
    )
}

/// The fingerprints of the keys of a run.
pub open spec fn fingerprints(s: Run<Seq<u8>>) -> Seq<u32> {
    s.map_values(|e: (Seq<u8>, Seq<u8>)| fingerprint::fingerprint(e.0))
}

/// Every key of the run has a fingerprint, and there are few enough of them for a filter.
pub open spec fn filterable(s: Run<Seq<u8>>) -> bool {
    &&& bloom::filter_len(s.len() as int) <= u32::MAX
    &&& forall|i: int| 0 <= i < s.len() ==> fingerprint::sums_fit((#[trigger] s[i]).0)
}

/// The filter on the keys of a run, where the run allows for one.
pub open spec fn filter_for(s: Run<Seq<u8>>) -> Option<Seq<bool>> {
    if filterable(s) {
        Some(bloom::filter_bits(fingerprints(s)))
    } else {
        None
    }
}

/// The table on some entries.
pub open spec fn table_on(id: usize, s: Run<Seq<u8>>) -> TableView {
    TableView { id, run: s, filter: filter_for(s) }
}

/// **A table holds the entries it is made of**, under its id.
pub proof fn table_holds_its_entries(id: usize, s: Run<Seq<u8>>)
    requires
        s.len() > 0,
    ensures
        table_on(id, s).id == id,
        table_on(id, s).run == s,
        table_on(id, s).first() == s[0].0,
        table_on(id, s).last() == s[s.len() - 1].0,
{
}

/// **A filter rules keys out**: a table that has a filter says of a key that it is not there if one
/// of its probes meets no probe of a key of the table.
pub proof fn filter_rules_out(id: usize, s: Run<Seq<u8>>, k: Seq<u8>, i: nat)
    requires
        filterable(s),
        fingerprint::sums_fit(k),
        i < bloom::PROBES,
        forall|j: int, n: nat|
            0 <= j < s.len() && n < bloom::PROBES ==> (#[trigger] bloom::probe(
                fingerprint::fingerprint(s[j].0),
                n,
            )) as int % bloom::filter_len(s.len() as int) != bloom::probe(
                fingerprint::fingerprint(k),
                i,
            ) as int % bloom::filter_len(s.len() as int),
    ensures
        !filter_admits(table_on(id, s).filter, k),
{
    let hashes = fingerprints(s);
    let h = fingerprint::fingerprint(k);
    if filter_admits(table_on(id, s).filter, k) {
        assert(bloom::probe_set(bloom::filter_bits(hashes), h, i));
        bloom::filter_sets_what_keys_meet(hashes, h, i);
        let (j, n) = choose|j: int, n: nat|
            0 <= j < hashes.len() && n < bloom::PROBES && #[trigger] bloom::probe(
                hashes[j],
                n,
            ) as int % bloom::filter_bits(hashes).len() as int == bloom::probe(h, i) as int
                % bloom::filter_bits(hashes).len() as int;
        assert(hashes[j] == fingerprint::fingerprint(s[j].0));
        assert(bloom::probe(fingerprint::fingerprint(s[j].0), n) == bloom::probe(hashes[j], n));
    }
}

/// A table on sorted entries is sound.
pub proof fn table_on_wf(id: usize, s: Run<Seq<u8>>)
    requires
        s.len() > 0,
        run::sorted(s),
    ensures
        table_on(id, s).wf(),
{
    if filterable(s) {
        let hashes = fingerprints(s);
        bloom::filter_covers_all(hashes);
        assert forall|i: int| 0 <= i < s.len() implies filter_admits(
            filter_for(s),
            (#[trigger] s[i]).0,
        ) by {
            assert(hashes[i] == fingerprint::fingerprint(s[i].0));
            assert(bloom::covers(bloom::filter_bits(hashes), hashes[i]));
        }
    }
}

/// An SSTable, with its entries and its filter in memory.
pub struct SsTable {
    id: usize,
    entries: Vec<(Bytes, Bytes)>,
    bloom: Option<Bloom>,
}

impl View for SsTable {
    type V = TableView;

    closed spec fn view(&self) -> TableView {
        TableView {
            id: self.id,
            run: skip_map_spec::run_of(self.entries@),
            filter: match self.bloom {
                Some(b) => Some(b@),
                None => None,
            },
        }
    }
}

impl SsTable {
    pub open spec fn wf(&self) -> bool {
        self@.wf()
    }

    pub fn sst_id(&self) -> (r: usize)
        ensures
            r == self@.id,
    {
        self.id
    }

    pub fn num_of_entries(&self) -> (r: usize)
        ensures
            r == self@.run.len(),
    {
        self.entries.len()
    }

    pub fn key_at(&self, i: usize) -> (r: KeySlice<'_>)
        requires
            i < self@.run.len(),
        ensures
            r.bytes() == self@.run[i as int].0,
    {
        KeySlice::from_slice(bytes_spec::as_slice(&self.entries[i].0))
    }

    pub fn value_at(&self, i: usize) -> (r: &[u8])
        requires
            i < self@.run.len(),
        ensures
            r@ == self@.run[i as int].1,
    {
        bytes_spec::as_slice(&self.entries[i].1)
    }

    pub fn first_key(&self) -> (r: KeySlice<'_>)
        requires
            self.wf(),
        ensures
            r.bytes() == self@.first(),
    {
        self.key_at(0)
    }

    pub fn last_key(&self) -> (r: KeySlice<'_>)
        requires
            self.wf(),
        ensures
            r.bytes() == self@.last(),
    {
        self.key_at(self.entries.len() - 1)
    }

    /// Whether the filter leaves open that the table has the key.
    pub fn may_contain(&self, key: &[u8]) -> (r: bool)
        requires
            self.wf(),
        ensures
            r == filter_admits(self@.filter, key@),
            self@.entries().contains_key(key@) ==> r,
    {
        proof {
            if self@.entries().contains_key(key@) {
                let i = run::run_map_find(self@.run, key@);
                assert(filter_admits(self@.filter, self@.run[i].0));
            }
        }
        match &self.bloom {
            None => true,
            Some(bloom) => match key_fingerprint(key) {
                None => true,
                Some(hash) => bloom.may_contain(hash),
            },
        }
    }

    /// A table on entries that were read back, where they can be one: there must be an entry, and
    /// the keys must increase.
    pub fn open(id: usize, entries: &Vec<(Bytes, Bytes)>) -> (r: Option<SsTable>)
        ensures
            r is Some <==> entries@.len() > 0 && run::sorted(skip_map_spec::run_of(entries@)),
            r matches Some(t) ==> {
                &&& t.wf()
                &&& t@ == table_on(id, skip_map_spec::run_of(entries@))
            },
    {
        let ghost all = skip_map_spec::run_of(entries@);
        let mut builder = SsTableBuilder::new();
        let mut i: usize = 0;
        while i < entries.len()
            invariant
                i <= entries@.len(),
                all == skip_map_spec::run_of(entries@),
                builder.wf(),
                builder@ == all.take(i as int),
            decreases entries@.len() - i,
        {
            if i > 0 && !bytes_less(
                bytes_spec::as_slice(&entries[i - 1].0),
                bytes_spec::as_slice(&entries[i].0),
            ) {
                proof {
                    assert(!all[i - 1].0.lt(all[i as int].0));
                }
                return None;
            }
            proof {
                broadcast use key::group_key_order;

                if i > 0 {
                    assert(all[i - 1].0.lt(all[i as int].0));
                    assert(builder@[i - 1] == all[i - 1]);
                }
                assert forall|j: int| 0 <= j < builder@.len() implies (
                #[trigger] builder@[j]).0.lt(all[i as int].0) by {
                    if j < i - 1 {
                        assert(builder@[j].0.lt(builder@[i - 1].0));
                    }
                }
            }
            builder.add(
                KeySlice::from_slice(bytes_spec::as_slice(&entries[i].0)),
                bytes_spec::as_slice(&entries[i].1),
            );
            assert(all.take(i + 1) =~= all.take(i as int).push(all[i as int]));
            i = i + 1;
        }
        assert(all.take(i as int) =~= all);
        if entries.len() == 0 {
            return None;
        }
        Some(builder.build(id))
    }
}

/// Builds an SSTable from key-value pairs.
pub struct SsTableBuilder {
    entries: Vec<(Bytes, Bytes)>,
    key_hashes: Vec<u32>,
    // Whether every key so far has a fingerprint.
    hashed: bool,
}

impl View for SsTableBuilder {
    type V = Run<Seq<u8>>;

    closed spec fn view(&self) -> Run<Seq<u8>> {
        skip_map_spec::run_of(self.entries@)
    }
}

impl SsTableBuilder {
    pub closed spec fn wf(&self) -> bool {
        &&& run::sorted(self@)
        &&& self.hashed <==> forall|i: int|
            0 <= i < self@.len() ==> fingerprint::sums_fit((#[trigger] self@[i]).0)
        &&& self.hashed ==> self.key_hashes@ == fingerprints(self@)
    }

    pub fn new() -> (r: Self)
        ensures
            r.wf(),
            r@.len() == 0,
    {
        let r = SsTableBuilder { entries: Vec::new(), key_hashes: Vec::new(), hashed: true };
        assert(r.key_hashes@ =~= fingerprints(r@));
        r
    }

    /// Adds a key-value pair to the table. The caller supplies the entries in order.
    pub fn add(&mut self, key: KeySlice<'_>, value: &[u8])
        requires
            old(self).wf(),
            forall|i: int|
                0 <= i < old(self)@.len() ==> (#[trigger] old(self)@[i]).0.lt(key.bytes()),
        ensures
            final(self).wf(),
            final(self)@ == old(self)@.push((key.bytes(), value@)),
    {
        if self.hashed {
            match key_fingerprint(key.raw_ref()) {
                Some(h) => self.key_hashes.push(h),
                None => {
                    self.hashed = false;
                },
            }
        }
        self.entries.push((Bytes::copy_from_slice(key.raw_ref()), Bytes::copy_from_slice(value)));
        proof {
            assert(self@ =~= old(self)@.push((key.bytes(), value@)));
            if self.hashed {
                assert(self.key_hashes@ =~= fingerprints(self@));
                assert forall|i: int| 0 <= i < self@.len() implies fingerprint::sums_fit(
                    (#[trigger] self@[i]).0,
                ) by {
                    if i < old(self)@.len() {
                        assert(self@[i] == old(self)@[i]);
                    }
                }
            } else if old(self).hashed {
                assert(!fingerprint::sums_fit(self@[self@.len() - 1].0));
            } else {
                let i = choose|i: int|
                    0 <= i < old(self)@.len() && !fingerprint::sums_fit(
                        (#[trigger] old(self)@[i]).0,
                    );
                assert(self@[i] == old(self)@[i]);
            }
        }
    }

    /// Builds the SSTable.
    pub fn build(self, id: usize) -> (r: SsTable)
        requires
            self.wf(),
            self@.len() > 0,
        ensures
            r.wf(),
            r@ == table_on(id, self@),
    {
        // The largest number of keys whose filter is addressed by 32 bits.
        let limit: usize = 0xffff_fff8 / BITS_PER_KEY;
        let bloom: Option<Bloom> = if self.hashed && self.entries.len() <= limit {
            Some(Bloom::build_from_key_hashes(&self.key_hashes))
        } else {
            None
        };
        let r = SsTable { id, entries: self.entries, bloom };
        proof {
            assert(r@ =~= table_on(id, self@));
            table_on_wf(id, self@);
        }
        r
    }
}

} // verus!
