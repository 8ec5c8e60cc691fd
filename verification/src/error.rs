//! The errors of the store.

use vstd::prelude::*;
use vstd::string::StringExecFns;

verus! {

/// Why an operation failed.
#[derive(Debug)]
pub enum StorageError {
    /// A cursor was advanced after an earlier advance had failed.
    Tainted,
    /// A key does not fit into the on-disk format.
    KeyTooLarge,
    /// A value does not fit into the on-disk format.
    ValueTooLarge,
    /// What a source of entries reported.
    Source(String),
}

impl StorageError {
    /// The error in words.
    pub fn message(&self) -> (r: String)
        ensures
            r@ == match *self {
                StorageError::Tainted => "the iterator is tainted"@,
                StorageError::KeyTooLarge => "key is too large for the on-disk format"@,
                StorageError::ValueTooLarge => "value is too large for the on-disk format"@,
                StorageError::Source(s) => s@,
            },
    {
        match self {
            StorageError::Tainted => String::from_str("the iterator is tainted"),
            StorageError::KeyTooLarge => String::from_str(
                "key is too large for the on-disk format",
            ),
            StorageError::ValueTooLarge => String::from_str(
                "value is too large for the on-disk format",
            ),
            StorageError::Source(s) => s.clone(),
        }
    }
}

} // verus!
