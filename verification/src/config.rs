//! Configuration of the store: storage and server sections, with the
//! validation rules both must satisfy. Loading from files and the
//! environment, and checking the data directory, are I/O concerns that
//! live with the embedding program.

pub mod server;
pub mod storage;

pub use server::ServerConfig;
pub use storage::StorageConfig;

use vstd::prelude::*;
use vstd::string::StringExecFns;

use crate::config::server::{spec_valid_ip, ServerConfigError};
use crate::config::storage::{StorageConfigError, MAX_MEMTABLE_SIZE_MB, MIN_MEMTABLE_SIZE_MB};

verus! {

/// Errors of configuration loading and validation.
#[derive(Debug, PartialEq)]
pub enum ConfigError {
    /// The configuration file named by the environment was not found.
    FileNotFound { path: String },
    /// The configuration file or environment could not be parsed;
    /// carries the parser's message.
    ParseError(String),
    /// The server section is invalid.
    Server(ServerConfigError),
    /// The storage section is invalid.
    Storage(StorageConfigError),
}

impl ConfigError {
    /// A human-readable description of the error.
    pub fn message(&self) -> (r: String)
        ensures
            match self {
                ConfigError::FileNotFound { path } => r@ == "Config file not found: "@ + path@,
                ConfigError::ParseError(msg) => r@ == "Failed to parse config: "@ + msg@,
                _ => true,
            },
    {
        match self {
            ConfigError::FileNotFound { path } => {
                let mut s = String::from_str("Config file not found: ");
                s.append(path.as_str());
                s
            },
            ConfigError::ParseError(msg) => {
                let mut s = String::from_str("Failed to parse config: ");
                s.append(msg.as_str());
                s
            },
            ConfigError::Server(e) => e.message(),
            ConfigError::Storage(e) => e.message(),
        }
    }
}

/// The whole configuration: the storage and server sections.
pub struct Config {
    /// Storage engine settings.
    pub storage: StorageConfig,
    /// Network server settings.
    pub server: ServerConfig,
}

impl Config {
    /// Validates both sections: storage first, then the server.
    pub fn validate(&self) -> (r: Result<(), ConfigError>)
        ensures
            r is Ok <==> (MIN_MEMTABLE_SIZE_MB <= self.storage.memtable_size_mb
                <= MAX_MEMTABLE_SIZE_MB && spec_valid_ip(self.server.host@) && self.server.port
                >= 1),
            r matches Err(e) ==> (e is Storage || e is Server),
    {
        match self.storage.validate() {
            Ok(()) => {},
            Err(e) => {
                return Err(ConfigError::Storage(e));
            },
        }
        match self.server.validate() {
            Ok(()) => {},
            Err(e) => {
                return Err(ConfigError::Server(e));
            },
        }
        Ok(())
    }
}

impl Default for Config {
    /// The default configuration of both sections.
    fn default() -> (r: Self)
        ensures
            r.storage.data_dir@ == "./data"@,
            r.storage.memtable_size_mb == storage::DEFAULT_MEMTABLE_SIZE_MB,
            r.server.host@ == server::spec_default_host(),
            r.server.port == 21524,
    {
        Self { storage: StorageConfig::default(), server: ServerConfig::default() }
    }
}

} // verus!
