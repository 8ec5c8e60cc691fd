//! A log-structured merge tree: sorted memory tables, sorted tables flushed from them, and the
//! merging cursors that read all of them as one map.

pub mod bound;
pub mod bytes_spec;
pub mod compact;
pub mod durability_laws;
pub mod error;
pub mod history_laws;
pub mod iterators;
pub mod key;
pub mod laws;
pub mod layout_laws;
pub mod lsm_iterator;
pub mod lsm_storage;
pub mod mem_table;
pub mod recovery_laws;
pub mod run;
pub mod skip_map_spec;
pub mod table;
