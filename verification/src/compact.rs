//! Compaction policies, as far as writing and recovery depend on them.

use vstd::prelude::*;

verus! {

#[derive(Clone, Copy, Debug)]
pub struct LeveledCompactionOptions {
    pub level_size_multiplier: usize,
    pub level0_file_num_compaction_trigger: usize,
    pub max_levels: usize,
    pub base_level_size_mb: usize,
}

#[derive(Clone, Copy, Debug)]
pub struct TieredCompactionOptions {
    pub num_tiers: usize,
    pub max_size_amplification_percent: usize,
    pub size_ratio: usize,
    pub min_merge_width: usize,
    pub max_merge_width: Option<usize>,
}

#[derive(Clone, Copy, Debug)]
pub struct SimpleLeveledCompactionOptions {
    pub size_ratio_percent: usize,
    pub level0_file_num_compaction_trigger: usize,
    pub max_levels: usize,
}

#[derive(Clone, Copy, Debug)]
pub enum CompactionOptions {
    /// Leveled compaction with partial compaction + dynamic level support
    Leveled(LeveledCompactionOptions),
    /// Tiered compaction
    Tiered(TieredCompactionOptions),
    /// Simple leveled compaction
    Simple(SimpleLeveledCompactionOptions),
    /// In no compaction mode, always flush to L0
    NoCompaction,
}

/// Which policy an engine runs.
#[derive(Clone, Copy, Debug)]
pub enum CompactionController {
    Leveled(LeveledCompactionOptions),
    Tiered(TieredCompactionOptions),
    Simple(SimpleLeveledCompactionOptions),
    NoCompaction,
}

/// The policy that the options ask for.
pub open spec fn controller_for(options: CompactionOptions) -> CompactionController {
    match options {
        CompactionOptions::Leveled(o) => CompactionController::Leveled(o),
        CompactionOptions::Tiered(o) => CompactionController::Tiered(o),
        CompactionOptions::Simple(o) => CompactionController::Simple(o),
        CompactionOptions::NoCompaction => CompactionController::NoCompaction,
    }
}

/// **An engine runs the policy that its options name**, with its parameters.
pub proof fn policy_is_as_asked_for(options: CompactionOptions)
    ensures
        options matches CompactionOptions::Leveled(o) ==> controller_for(options)
            == CompactionController::Leveled(o),
        options matches CompactionOptions::Tiered(o) ==> controller_for(options)
            == CompactionController::Tiered(o),
        options matches CompactionOptions::Simple(o) ==> controller_for(options)
            == CompactionController::Simple(o),
        options is NoCompaction ==> controller_for(options) is NoCompaction,
{
}

impl CompactionController {
    pub fn new(options: &CompactionOptions) -> (r: Self)
        ensures
            r == controller_for(*options),
    {
        match options {
            CompactionOptions::Leveled(o) => CompactionController::Leveled(*o),
            CompactionOptions::Tiered(o) => CompactionController::Tiered(*o),
            CompactionOptions::Simple(o) => CompactionController::Simple(*o),
            CompactionOptions::NoCompaction => CompactionController::NoCompaction,
        }
    }

    /// Whether a flushed table goes to L0. Under tiered compaction it makes a new tier instead,
    /// and L0 stays empty.
    pub fn flush_to_l0(&self) -> (r: bool)
        ensures
            r == !(self is Tiered),
    {
        match self {
            CompactionController::Tiered(_) => false,
            _ => true,
        }
    }
}

} // verus!
