//! Settings of the storage engine.

use vstd::prelude::*;

verus! {

/// Limits and switches of the record store.
#[derive(Debug, Clone, Copy)]
pub struct StorageConfig {
    /// Ceiling, in bytes, on the summed size of all stored records.
    pub max_memory: usize,
    /// Whether snapshots are written and read.
    pub persistence_enabled: bool,
}

impl Default for StorageConfig {
    /// A ceiling of one gibibyte, without snapshots.
    fn default() -> (r: StorageConfig)
        ensures
            r.max_memory == 1073741824,
            !r.persistence_enabled,
    {
        StorageConfig { max_memory: 1073741824, persistence_enabled: false }
    }
}

} // verus!
