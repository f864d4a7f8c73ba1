//! Storage engine configuration: data directory and memtable size.

use vstd::prelude::*;
use vstd::string::StringExecFns;

use crate::byteops::{dec_string, spec_dec_chars};

verus! {

/// Smallest allowed memtable size in megabytes.
pub const MIN_MEMTABLE_SIZE_MB: usize = 1;

/// Largest allowed memtable size in megabytes.
pub const MAX_MEMTABLE_SIZE_MB: usize = 1024;

/// Default memtable size in megabytes.
pub const DEFAULT_MEMTABLE_SIZE_MB: usize = 4;

/// Errors of storage configuration validation.
#[derive(Debug, PartialEq)]
pub enum StorageConfigError {
    /// The memtable size is outside 1 to 1024 megabytes.
    InvalidMemtableSize { size: usize },
    /// The data directory could not be created or written to; carries
    /// the path and the text of the underlying I/O error.
    DirNotWritable { path: String, error: String },
}

impl StorageConfigError {
    /// A human-readable description of the error.
    pub fn message(&self) -> (r: String)
        ensures
            match self {
                StorageConfigError::InvalidMemtableSize { size } => r@ == "Invalid memtable size: "@
                    + spec_dec_chars(*size as u64) + " MB, must between 1 and 1024"@,
                StorageConfigError::DirNotWritable { path, error } => r@
                    == "Directory not writable: "@ + path@,
            },
    {
        match self {
            StorageConfigError::InvalidMemtableSize { size } => {
                let mut s = String::from_str("Invalid memtable size: ");
                let d = dec_string(*size as u64);
                s.append(d.as_str());
                s.append(" MB, must between 1 and 1024");
                s
            },
            StorageConfigError::DirNotWritable { path, .. } => {
                let mut s = String::from_str("Directory not writable: ");
                s.append(path.as_str());
                s
            },
        }
    }
}

/// The default data directory.
pub fn default_data_dir() -> (r: String)
    ensures
        r@ == "./data"@,
{
    String::from_str("./data")
}

/// The default memtable size in megabytes.
pub fn default_memtable_size() -> (r: usize)
    ensures
        r == DEFAULT_MEMTABLE_SIZE_MB,
{
    DEFAULT_MEMTABLE_SIZE_MB
}

/// Storage engine configuration.
pub struct StorageConfig {
    /// Path of the directory data files are stored in.
    pub data_dir: String,
    /// Memtable size threshold in megabytes; a flush is triggered when
    /// the memtable exceeds it. Must lie between 1 and 1024.
    pub memtable_size_mb: usize,
}

impl StorageConfig {
    /// Validates the configuration: the memtable size must lie between
    /// 1 and 1024 megabytes. That the data directory exists and is
    /// writable is an I/O concern, checked by the storage bootstrap at
    /// startup.
    pub fn validate(&self) -> (r: Result<(), StorageConfigError>)
        ensures
            r is Ok <==> MIN_MEMTABLE_SIZE_MB <= self.memtable_size_mb <= MAX_MEMTABLE_SIZE_MB,
            r matches Err(e) ==> e == (StorageConfigError::InvalidMemtableSize {
                size: self.memtable_size_mb,
            }),
    {
        self.check_memtable_size()
    }

    /// The memtable size must lie between 1 and 1024 megabytes.
    pub fn check_memtable_size(&self) -> (r: Result<(), StorageConfigError>)
        ensures
            r is Ok <==> MIN_MEMTABLE_SIZE_MB <= self.memtable_size_mb <= MAX_MEMTABLE_SIZE_MB,
            r matches Err(e) ==> e == (StorageConfigError::InvalidMemtableSize {
                size: self.memtable_size_mb,
            }),
    {
        if MIN_MEMTABLE_SIZE_MB <= self.memtable_size_mb && self.memtable_size_mb
            <= MAX_MEMTABLE_SIZE_MB {
            Ok(())
        } else {
            Err(StorageConfigError::InvalidMemtableSize { size: self.memtable_size_mb })
        }
    }
}

impl Default for StorageConfig {
    /// The default configuration: `./data` with a four-megabyte
    /// memtable.
    fn default() -> (r: Self)
        ensures
            r.data_dir@ == "./data"@,
            r.memtable_size_mb == DEFAULT_MEMTABLE_SIZE_MB,
    {
        Self { data_dir: default_data_dir(), memtable_size_mb: default_memtable_size() }
    }
}

} // verus!
