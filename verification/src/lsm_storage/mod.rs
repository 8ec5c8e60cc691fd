//! The storage engine: options, the layout of its sources, and the engine itself.

use vstd::prelude::*;
use std::collections::HashMap;
use std::ops::Bound;
use std::sync::Arc;
use bytes::Bytes;
use crate::bound;
use crate::bytes_spec;
use crate::compact::{CompactionController, CompactionOptions};
use crate::error::StorageError;
use crate::key;
use crate::key::{bytes_less, KeySlice};
use crate::lsm_storage::model::StateView;
use crate::lsm_storage::steps::EngineView;
use crate::mem_table::MemTable;
use crate::table::SsTable;

pub mod actions;
pub mod file_names;
pub mod flush;
pub mod get;
pub mod model;
pub mod recovery;
pub mod scan;
pub mod soundness;
pub mod sources;
pub mod steps;
pub mod table_order;
pub mod write_path;

verus! {

/// What can be read as a string of bytes.
pub trait AsBytes {
    spec fn bytes(&self) -> Seq<u8>;

    fn as_bytes(&self) -> (r: &[u8])
        ensures
            r@ == self.bytes(),
    ;
}

impl<'a> AsBytes for &'a [u8] {
    open spec fn bytes(&self) -> Seq<u8> {
        self@
    }

    fn as_bytes(&self) -> (r: &[u8]) {
        self
    }
}

impl AsBytes for Vec<u8> {
    open spec fn bytes(&self) -> Seq<u8> {
        self@
    }

    fn as_bytes(&self) -> (r: &[u8]) {
        self.as_slice()
    }
}

impl AsBytes for Bytes {
    open spec fn bytes(&self) -> Seq<u8> {
        bytes_spec::bytes_of(*self)
    }

    fn as_bytes(&self) -> (r: &[u8]) {
        bytes_spec::as_slice(self)
    }
}

pub enum WriteBatchRecord<T: AsBytes> {
    Put(T, T),
    Del(T),
}

/// The entry that a record writes. A deletion writes an empty value.
pub open spec fn record_entry<T: AsBytes>(r: WriteBatchRecord<T>) -> (Seq<u8>, Seq<u8>) {
    match r {
        WriteBatchRecord::Put(k, v) => (k.bytes(), v.bytes()),
        WriteBatchRecord::Del(k) => (k.bytes(), Seq::empty()),
    }
}

/// The entries that a batch writes, in order.
pub open spec fn batch_entries<T: AsBytes>(batch: Seq<WriteBatchRecord<T>>) -> Seq<
    (Seq<u8>, Seq<u8>),
> {
    batch.map_values(|r: WriteBatchRecord<T>| record_entry(r))
}

/// What is wrong with a batch: the first record with a field that is too large for the on-disk
/// format decides, and in it the key comes before the value.
pub open spec fn batch_error(entries: Seq<(Seq<u8>, Seq<u8>)>) -> Option<StorageError>
    decreases entries.len(),
{
    if entries.len() == 0 {
        None
    } else if entries[0].0.len() > u16::MAX {
        Some(StorageError::KeyTooLarge)
    } else if entries[0].1.len() > u16::MAX {
        Some(StorageError::ValueTooLarge)
    } else {
        batch_error(entries.drop_first())
    }
}

/// The record can be written to disk: lengths are stored in two bytes.
pub open spec fn fits(entry: (Seq<u8>, Seq<u8>)) -> bool {
    entry.0.len() <= 0xffff && entry.1.len() <= 0xffff
}

/// **A batch is refused for its first record that does not fit**, and for nothing else: for the key
/// if that is too large, and else for the value.
pub proof fn first_misfit_decides(entries: Seq<(Seq<u8>, Seq<u8>)>)
    ensures
        batch_error(entries) is None <==> forall|i: int|
            0 <= i < entries.len() ==> fits(#[trigger] entries[i]),
        forall|i: int|
            #![trigger entries[i]]
            0 <= i < entries.len() && !fits(entries[i]) && (forall|j: int|
                0 <= j < i ==> fits(#[trigger] entries[j])) ==> batch_error(entries) == Some(
                if entries[i].0.len() > 0xffff {
                    StorageError::KeyTooLarge
                } else {
                    StorageError::ValueTooLarge
                },
            ),
    decreases entries.len(),
{
    if entries.len() > 0 {
        let rest = entries.drop_first();
        first_misfit_decides(rest);
        assert forall|i: int| 0 <= i < rest.len() implies #[trigger] rest[i] == entries[i + 1] by {}
        if fits(entries[0]) {
            if forall|i: int| 0 <= i < rest.len() ==> fits(#[trigger] rest[i]) {
                assert forall|i: int| 0 <= i < entries.len() implies fits(
                    #[trigger] entries[i],
                ) by {
                    if i > 0 {
                        assert(fits(rest[i - 1]));
                    }
                }
            }
            if forall|i: int| 0 <= i < entries.len() ==> fits(#[trigger] entries[i]) {
                assert forall|i: int| 0 <= i < rest.len() implies fits(#[trigger] rest[i]) by {
                    assert(fits(entries[i + 1]));
                }
            }
            assert forall|i: int|
                #![trigger entries[i]]
                0 <= i < entries.len() && !fits(entries[i]) && (forall|j: int|
                    0 <= j < i ==> fits(#[trigger] entries[j])) implies batch_error(entries)
                == Some(
                if entries[i].0.len() > 0xffff {
                    StorageError::KeyTooLarge
                } else {
                    StorageError::ValueTooLarge
                },
            ) by {
                assert(i > 0);
                assert(rest[i - 1] == entries[i]);
                assert forall|j: int| 0 <= j < i - 1 implies fits(#[trigger] rest[j]) by {
                    assert(fits(entries[j + 1]));
                }
            }
        }
    }
}

/// **A record writes its own fields**: a put its key and its value, a deletion its key and an empty
/// value; a batch writes them in order.
pub proof fn records_write_their_fields<T: AsBytes>(batch: Seq<WriteBatchRecord<T>>)
    ensures
        batch_entries(batch).len() == batch.len(),
        forall|i: int|
            #![trigger batch[i]]
            0 <= i < batch.len() ==> (batch[i] matches WriteBatchRecord::Put(k, v)
                ==> batch_entries(batch)[i] == (k.bytes(), v.bytes())),
        forall|i: int|
            #![trigger batch[i]]
            0 <= i < batch.len() ==> (batch[i] matches WriteBatchRecord::Del(k)
                ==> batch_entries(batch)[i] == (k.bytes(), Seq::<u8>::empty())),
{
}

/// **Byte strings are read as they are.**
pub proof fn bytes_are_read_as_they_are(s: &[u8], v: Vec<u8>, b: Bytes)
    ensures
        AsBytes::bytes(&s) == s@,
        v.bytes() == v@,
        b.bytes() == bytes_spec::bytes_of(b),
{
}

/// The fields of one record.
fn record_fields<T: AsBytes>(record: &WriteBatchRecord<T>) -> (r: (&[u8], &[u8]))
    ensures
        r.0@ == record_entry(*record).0,
        r.1@ == record_entry(*record).1,
{
    match record {
        WriteBatchRecord::Put(key, value) => (key.as_bytes(), value.as_bytes()),
        WriteBatchRecord::Del(key) => {
            let nothing: &[u8] = &[];
            assert(nothing@ =~= Seq::empty());
            (key.as_bytes(), nothing)
        },
    }
}

/// Checks that every field of a batch fits into the on-disk format.
pub fn validate_write_batch<T: AsBytes>(batch: &[WriteBatchRecord<T>]) -> (r: Result<
    (),
    StorageError,
>)
    ensures
        r is Ok <==> batch_error(batch_entries(batch@)) is None,
        r matches Err(e) ==> batch_error(batch_entries(batch@)) == Some(e),
{
    let ghost entries = batch_entries(batch@);
    assert(entries.skip(0) =~= entries);
    let mut i: usize = 0;
    while i < batch.len()
        invariant
            i <= batch@.len(),
            entries == batch_entries(batch@),
            batch_error(entries) == batch_error(entries.skip(i as int)),
        decreases batch@.len() - i,
    {
        let (key, value) = record_fields(&batch[i]);
        assert(entries.skip(i as int).drop_first() =~= entries.skip(i + 1));
        if key.len() > u16::MAX as usize {
            return Err(StorageError::KeyTooLarge);
        }
        if value.len() > u16::MAX as usize {
            return Err(StorageError::ValueTooLarge);
        }
        i = i + 1;
    }
    Ok(())
}

#[derive(Clone, Copy, Debug)]
pub struct LsmStorageOptions {
    // Block size in bytes
    pub block_size: usize,
    // SST size in bytes, also the approximate memtable capacity limit
    pub target_sst_size: usize,
    // Maximum number of memtables in memory, flush to L0 when exceeding this limit
    pub num_memtable_limit: usize,
    pub compaction_options: CompactionOptions,
    pub enable_wal: bool,
    pub serializable: bool,
}

impl LsmStorageOptions {
    pub fn default_for_week1_test() -> (r: Self)
        ensures
            r == (LsmStorageOptions {
                block_size: 4096,
                target_sst_size: 0x20_0000,
                num_memtable_limit: 50,
                compaction_options: CompactionOptions::NoCompaction,
                enable_wal: false,
                serializable: false,
            }),
    {
        LsmStorageOptions {
            block_size: 4096,
            target_sst_size: 0x20_0000,
            compaction_options: CompactionOptions::NoCompaction,
            enable_wal: false,
            num_memtable_limit: 50,
            serializable: false,
        }
    }

    pub fn default_for_week1_day6_test() -> (r: Self)
        ensures
            r == (LsmStorageOptions {
                block_size: 4096,
                target_sst_size: 0x20_0000,
                num_memtable_limit: 2,
                compaction_options: CompactionOptions::NoCompaction,
                enable_wal: false,
                serializable: false,
            }),
    {
        LsmStorageOptions {
            block_size: 4096,
            target_sst_size: 0x20_0000,
            compaction_options: CompactionOptions::NoCompaction,
            enable_wal: false,
            num_memtable_limit: 2,
            serializable: false,
        }
    }

    pub fn default_for_week2_test(compaction_options: CompactionOptions) -> (r: Self)
        ensures
            r == (LsmStorageOptions {
                block_size: 4096,
                target_sst_size: 0x10_0000,
                num_memtable_limit: 2,
                compaction_options,
                enable_wal: false,
                serializable: false,
            }),
    {
        LsmStorageOptions {
            block_size: 4096,
            target_sst_size: 0x10_0000,  // 1MB
            compaction_options,
            enable_wal: false,
            num_memtable_limit: 2,
            serializable: false,
        }
    }
}

/// Represents the state of the storage engine.
pub struct LsmStorageState {
    /// The current memtable.
    pub memtable: MemTable,
    /// Immutable memtables, from latest to earliest.
    pub imm_memtables: Vec<Arc<MemTable>>,
    /// L0 SSTs, from latest to earliest.
    pub l0_sstables: Vec<usize>,
    /// L1 - L_max for leveled compaction, or newest-to-oldest tiers for tiered compaction. Within
    /// each level/tier, SSTs have sorted, non-overlapping key ranges.
    pub levels: Vec<(usize, Vec<usize>)>,
    /// ID-to-object lookup. The ordered vectors above determine priority.
    pub sstables: HashMap<usize, Arc<SsTable>>,
}

/// The ids of the tables in each level.
pub open spec fn level_ids(levels: Seq<(usize, Vec<usize>)>) -> Seq<(usize, Seq<usize>)> {
    levels.map_values(|l: (usize, Vec<usize>)| (l.0, l.1@))
}

impl View for LsmStorageState {
    type V = StateView;

    open spec fn view(&self) -> StateView {
        StateView {
            memtable: self.memtable@,
            imm_memtables: self.imm_memtables@.map_values(|m: Arc<MemTable>| m@),
            l0_sstables: self.l0_sstables@,
            levels: level_ids(self.levels@),
            sstables: self.sstables@.map_values(|t: Arc<SsTable>| t@),
        }
    }
}

impl LsmStorageState {
    /// The layout of a store without data: as many empty levels as the policy has, and no tier.
    pub fn create(options: &LsmStorageOptions) -> (r: Self)
        ensures
            r@ == model::empty_state(options.compaction_options),
    {
        broadcast use vstd::std_specs::hash::group_hash_axioms;

        let levels: Vec<(usize, Vec<usize>)> = match &options.compaction_options {
            CompactionOptions::Leveled(o) => Self::empty_levels(o.max_levels),
            CompactionOptions::Simple(o) => Self::empty_levels(o.max_levels),
            CompactionOptions::Tiered(_) => Vec::new(),
            CompactionOptions::NoCompaction => Self::empty_levels(1),
        };
        let r = LsmStorageState {
            memtable: MemTable::create(0),
            imm_memtables: Vec::new(),
            l0_sstables: Vec::new(),
            levels,
            sstables: HashMap::new(),
        };
        assert(r@ =~= model::empty_state(options.compaction_options));
        r
    }

    fn empty_levels(max_levels: usize) -> (r: Vec<(usize, Vec<usize>)>)
        ensures
            level_ids(r@) == model::empty_levels(max_levels as int),
    {
        let mut levels: Vec<(usize, Vec<usize>)> = Vec::new();
        let mut level: usize = 0;
        assert(level_ids(levels@) =~= model::empty_levels(0));
        while level < max_levels
            invariant
                level <= max_levels,
                level_ids(levels@) == model::empty_levels(level as int),
            decreases max_levels - level,
        {
            level = level + 1;
            let none: Vec<usize> = Vec::new();
            let ghost before = level_ids(levels@);
            levels.push((level, none));
            assert(none@ =~= Seq::empty());
            assert(level_ids(levels@) =~= before.push((level, none@)));
            assert forall|i: int| 0 <= i < before.len() implies #[trigger] before[i]
                == model::empty_levels(level as int)[i] by {}
            assert(level_ids(levels@) =~= model::empty_levels(level as int));
        }
        levels
    }
}

/// Test the query bounds against an SST's inclusive [first_key, last_key] range. This can skip a
/// whole table before loading any of its data.
pub fn range_overlap(
    user_begin: Bound<&[u8]>,
    user_end: Bound<&[u8]>,
    table_begin: KeySlice<'_>,
    table_end: KeySlice<'_>,
) -> (r: bool)
    ensures
        r == (bound::below_upper(bound::slice_bound(user_end), table_begin.bytes())
            && bound::above_lower(bound::slice_bound(user_begin), table_end.bytes())),
        !r ==> forall|k: Seq<u8>|
            #![trigger bound::within(
                bound::slice_bound(user_begin),
                bound::slice_bound(user_end),
                k,
            )]
            key::le(table_begin.bytes(), k) && key::le(k, table_end.bytes()) ==> !bound::within(
                bound::slice_bound(user_begin),
                bound::slice_bound(user_end),
                k,
            ),
{
    broadcast use key::group_key_order;

    // Reject ranges completely to the left of this SST. If the query's upper bound is the table's
    // first key, only an included one can overlap at that key.
    match user_end {
        Bound::Excluded(key) => {
            if !bytes_less(table_begin.raw_ref(), key) {
                return false;
            }
        },
        Bound::Included(key) => {
            if bytes_less(key, table_begin.raw_ref()) {
                return false;
            }
        },
        Bound::Unbounded => {},
    }
    // Symmetrically reject ranges completely to the right of this SST.
    match user_begin {
        Bound::Excluded(key) => {
            if !bytes_less(key, table_end.raw_ref()) {
                return false;
            }
        },
        Bound::Included(key) => {
            if bytes_less(table_end.raw_ref(), key) {
                return false;
            }
        },
        Bound::Unbounded => {},
    }
    true
}

/// Whether the key lies in the table's inclusive range.
pub fn key_within(user_key: &[u8], table_begin: KeySlice<'_>, table_end: KeySlice<'_>) -> (r: bool)
    ensures
        r == (key::le(table_begin.bytes(), user_key@) && key::le(user_key@, table_end.bytes())),
{
    broadcast use key::group_key_order;

    !bytes_less(user_key, table_begin.raw_ref()) && !bytes_less(table_end.raw_ref(), user_key)
}

/// A rule by which a compaction drops entries.
#[derive(Clone, Debug)]
pub enum CompactionFilter {
    Prefix(Bytes),
}

/// The storage interface of the LSM tree.
pub struct LsmStorageInner {
    pub state: LsmStorageState,
    pub next_sst_id: usize,
    pub options: LsmStorageOptions,
    pub compaction_controller: CompactionController,
    pub compaction_filters: Vec<CompactionFilter>,
}

impl View for LsmStorageInner {
    type V = EngineView;

    open spec fn view(&self) -> EngineView {
        EngineView {
            state: self.state@,
            next_sst_id: self.next_sst_id,
            options: self.options,
            tiered: self.compaction_controller is Tiered,
        }
    }
}

impl LsmStorageInner {
    /// The policy and the filters are the same.
    pub open spec fn same_rules(&self, other: &Self) -> bool {
        self.compaction_controller == other.compaction_controller && self.compaction_filters
            == other.compaction_filters
    }

    /// Without versions there is nothing to start.
    pub fn new_txn(&self) -> (r: Result<(), StorageError>)
        ensures
            r is Ok,
    {
        Ok(())
    }

    pub fn add_compaction_filter(&mut self, compaction_filter: CompactionFilter)
        ensures
            final(self)@ == old(self)@,
            final(self).compaction_controller == old(self).compaction_controller,
            final(self).compaction_filters@ == old(self).compaction_filters@.push(
                compaction_filter,
            ),
    {
        self.compaction_filters.push(compaction_filter);
    }
}

} // verus!
