//! The mathematical model of the store: its sources in the order of their priority, and what they
//! hold together.

use vstd::prelude::*;
use std::ops::Bound;
use crate::bound;
use crate::compact::CompactionOptions;
use crate::iterators::concat_iterator;
use crate::mem_table;
use crate::mem_table::MemView;
use crate::run;
use crate::run::Entries;
use crate::table::TableView;

verus! {

/// The layout of a store.
#[verifier::ext_equal]
pub struct StateView {
    pub memtable: MemView,
    pub imm_memtables: Seq<MemView>,
    pub l0_sstables: Seq<usize>,
    pub levels: Seq<(usize, Seq<usize>)>,
    pub sstables: Map<usize, TableView>,
}

/// Levels 1 to `n` without tables.
pub open spec fn empty_levels(n: int) -> Seq<(usize, Seq<usize>)> {
    Seq::new(n as nat, |i: int| ((i + 1) as usize, Seq::<usize>::empty()))
}

/// The layout of a store without data.
pub open spec fn empty_state(options: CompactionOptions) -> StateView {
    StateView {
        memtable: mem_table::fresh(0, false),
        imm_memtables: Seq::empty(),
        l0_sstables: Seq::empty(),
        levels: match options {
            CompactionOptions::Leveled(o) => empty_levels(o.max_levels as int),
            CompactionOptions::Simple(o) => empty_levels(o.max_levels as int),
            CompactionOptions::Tiered(_) => Seq::empty(),
            CompactionOptions::NoCompaction => empty_levels(1),
        },
        sstables: Map::empty(),
    }
}

impl StateView {
    /// The tables with some ids.
    pub open spec fn tables(self, ids: Seq<usize>) -> Seq<TableView> {
        ids.map_values(|id: usize| self.sstables[id])
    }

    /// What the memtables hold, the current one first and then from latest to earliest.
    pub open spec fn memory_sources(self) -> Seq<Entries> {
        seq![self.memtable.entries] + self.imm_memtables.map_values(|m: MemView| m.entries)
    }

    /// What the L0 tables hold, from latest to earliest.
    pub open spec fn l0_sources(self) -> Seq<Entries> {
        self.l0_sstables.map_values(|id: usize| self.sstables[id].entries())
    }

    /// What the levels or tiers hold.
    pub open spec fn level_sources(self) -> Seq<Entries> {
        self.levels.map_values(
            |l: (usize, Seq<usize>)| run::run_map(concat_iterator::level_run(self.tables(l.1))),
        )
    }

    /// All sources, those with the higher priority first: memory, then L0, then the levels.
    pub open spec fn sources(self) -> Seq<Entries> {
        self.memory_sources() + self.l0_sources() + self.level_sources()
    }

    /// What the store holds: for each key the entry of the first source that has it, tombstones
    /// as well.
    pub open spec fn contents(self) -> Entries {
        run::overlay_all(self.sources())
    }

    /// What a read of a key returns: the winning entry's value, unless it is a tombstone.
    pub open spec fn lookup(self, k: Seq<u8>) -> Option<Seq<u8>> {
        live_value(self.contents(), k)
    }

    /// The memtables hold finitely many entries and no empty key.
    pub open spec fn memory_wf(self) -> bool {
        &&& memtable_wf(self.memtable)
        &&& forall|i: int|
            0 <= i < self.imm_memtables.len() ==> memtable_wf(#[trigger] self.imm_memtables[i])
    }

    /// Every table of the layout is there, and the tables of a level are in order.
    pub open spec fn tables_wf(self) -> bool {
        &&& forall|i: int|
            0 <= i < self.l0_sstables.len() ==> self.has_table(#[trigger] self.l0_sstables[i])
        &&& forall|i: int|
            0 <= i < self.levels.len() ==> self.level_wf((#[trigger] self.levels[i]).1)
    }

    pub open spec fn has_table(self, id: usize) -> bool {
        self.sstables.contains_key(id) && self.sstables[id].wf()
    }

    pub open spec fn level_wf(self, ids: Seq<usize>) -> bool {
        &&& forall|i: int| 0 <= i < ids.len() ==> self.has_table(#[trigger] ids[i])
        &&& concat_iterator::disjoint(self.tables(ids))
    }

    /// The parts are sound by themselves: the memtables hold finitely many entries, and every table
    /// is sound.
    pub open spec fn parts_wf(self) -> bool {
        &&& self.memtable.entries.dom().finite()
        &&& forall|i: int|
            0 <= i < self.imm_memtables.len() ==> (
            #[trigger] self.imm_memtables[i]).entries.dom().finite()
        &&& forall|id: usize| #[trigger]
            self.sstables.contains_key(id) ==> self.sstables[id].wf()
    }

    /// The layout can be read.
    pub open spec fn wf(self) -> bool {
        self.memory_wf() && self.tables_wf()
    }
}

pub open spec fn memtable_wf(m: MemView) -> bool {
    m.entries.dom().finite() && !m.entries.contains_key(Seq::empty())
}

/// The value of a key that is there and not a tombstone.
pub open spec fn live_value(m: Entries, k: Seq<u8>) -> Option<Seq<u8>> {
    if m.contains_key(k) && m[k].len() > 0 {
        Some(m[k])
    } else {
        None
    }
}

/// Both maps hold the same between the bounds.
pub open spec fn agree(
    a: Entries,
    b: Entries,
    lower: Bound<Seq<u8>>,
    upper: Bound<Seq<u8>>,
) -> bool {
    forall|k: Seq<u8>| #[trigger]
        bound::within(lower, upper, k) ==> {
            &&& a.contains_key(k) == b.contains_key(k)
            &&& a.contains_key(k) ==> a[k] == b[k]
        }
}

/// No key is cut off by the lower bound.
pub open spec fn starts_at(m: Entries, lower: Bound<Seq<u8>>) -> bool {
    forall|k: Seq<u8>| #[trigger] m.contains_key(k) ==> bound::above_lower(lower, k)
}

pub proof fn agree_overlay(
    a1: Entries,
    b1: Entries,
    a2: Entries,
    b2: Entries,
    lower: Bound<Seq<u8>>,
    upper: Bound<Seq<u8>>,
)
    requires
        agree(a1, b1, lower, upper),
        agree(a2, b2, lower, upper),
    ensures
        agree(run::overlay(a1, a2), run::overlay(b1, b2), lower, upper),
{
}

} // verus!
