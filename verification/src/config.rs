//! Configuration for opening a store.

use vstd::prelude::*;

verus! {

/// Configuration for the key-value store.
#[derive(Debug, Clone)]
pub struct Config {
    /// Path to the database directory.
    pub path: String,
    /// Maximum size of the memtable in bytes before it becomes immutable.
    pub memtable_size: usize,
    /// Whether to sync writes to disk immediately.
    pub sync: bool,
    /// Whether to create the database if it does not exist.
    pub create_if_missing: bool,
}

impl Default for Config {
    fn default() -> (r: Config)
        ensures
            r.path@ == "rocksdb_data"@,
            r.memtable_size == 64 * 1024 * 1024,
            !r.sync,
            r.create_if_missing,
    {
        Config {
            path: "rocksdb_data".to_string(),
            memtable_size: 64 * 1024 * 1024,
            sync: false,
            create_if_missing: true,
        }
    }
}

impl Config {
    /// Creates a new configuration with default values.
    pub fn new() -> (r: Config)
        ensures
            r.path@ == "rocksdb_data"@,
            r.memtable_size == 64 * 1024 * 1024,
            !r.sync,
            r.create_if_missing,
    {
        Config::default()
    }

    /// Sets the database path.
    pub fn path(self, path: String) -> (r: Config)
        ensures
            r.path@ == path@,
            r.memtable_size == self.memtable_size,
            r.sync == self.sync,
            r.create_if_missing == self.create_if_missing,
    {
        Config { path, ..self }
    }

    /// Sets the maximum memtable size in bytes.
    pub fn memtable_size(self, size: usize) -> (r: Config)
        ensures
            r.path@ == self.path@,
            r.memtable_size == size,
            r.sync == self.sync,
            r.create_if_missing == self.create_if_missing,
    {
        Config { memtable_size: size, ..self }
    }

    /// Enables or disables sync writes.
    pub fn sync(self, sync: bool) -> (r: Config)
        ensures
            r.path@ == self.path@,
            r.memtable_size == self.memtable_size,
            r.sync == sync,
            r.create_if_missing == self.create_if_missing,
    {
        Config { sync, ..self }
    }

    /// Enables or disables creating the database if it does not exist.
    pub fn create_if_missing(self, create: bool) -> (r: Config)
        ensures
            r.path@ == self.path@,
            r.memtable_size == self.memtable_size,
            r.sync == self.sync,
            r.create_if_missing == create,
    {
        Config { create_if_missing: create, ..self }
    }
}

} // verus!
