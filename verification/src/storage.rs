//! Persistence collaborators, specified at their interface.
//!
//! Saving and loading the store is out of the core's scope: the core
//! produces and consumes [`StoredData`], and a [`StorageBackend`]
//! implemented outside the verified library carries it to a file or a
//! database.  The backends declared here hold only their configuration;
//! their I/O lives with the embedding application.

use vstd::prelude::*;
use crate::error::MemoryError;
use crate::model::{AgentProfile, AgentState, Memory};

verus! {

/// Data container for persisted store state.
pub struct StoredData {
    /// All records.
    pub memories: Vec<Memory>,
    /// The agent profile associated with the store.
    pub agent_profile: AgentProfile,
    /// The agent state associated with the store.
    pub agent_state: AgentState,
}

/// A persistence backend for the store, implemented by collaborators
/// outside the verified core.
pub trait StorageBackend {
    /// Load stored data from the backend.
    fn load(&self) -> Result<StoredData, MemoryError>;

    /// Save data to the backend.
    fn save(&self, data: &StoredData) -> Result<(), MemoryError>;
}

/// Configuration of a JSON-file storage backend.
pub struct FileBackend {
    path: String,
}

impl FileBackend {
    /// The configured file path.
    pub closed spec fn path_view(self) -> Seq<char> {
        self.path@
    }

    /// Creates a backend configuration for the given file path.
    pub fn new(path: String) -> (b: FileBackend)
        ensures
            b.path_view() == path@,
    {
        FileBackend { path }
    }

    /// The configured file path.
    pub fn path(&self) -> (p: &str)
        ensures
            p@ == self.path_view(),
    {
        self.path.as_str()
    }
}

/// Configuration of a SQLite storage backend.
pub struct SqliteBackend {
    url: String,
}

impl SqliteBackend {
    /// The configured connection URL.
    pub closed spec fn url_view(self) -> Seq<char> {
        self.url@
    }

    /// Creates a backend configuration for the given connection URL.
    pub fn new(url: String) -> (b: SqliteBackend)
        ensures
            b.url_view() == url@,
    {
        SqliteBackend { url }
    }

    /// The configured connection URL.
    pub fn url(&self) -> (u: &str)
        ensures
            u@ == self.url_view(),
    {
        self.url.as_str()
    }
}

} // verus!
