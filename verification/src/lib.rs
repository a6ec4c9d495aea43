//! A biologically inspired memory engine for simulated agents.
//!
//! Records carry a semantic vector and affect/decay attributes; retrieval is
//! ranked by the product of cosine similarity and a time-decaying retention
//! score, retrieval reinforces the returned records, and maintenance evicts
//! records whose retention has fallen under a threshold.
//!
//! Every scalar in the engine is a fixed-point number with six decimal
//! places: the `i64` value `1_000_000` stands for `1.0`.

pub mod error;
pub mod fixed;
pub mod similarity;
pub mod model;
pub mod ranking;
pub mod store;
pub mod concurrent_store;
pub mod sharded_store;
pub mod storage;
mod external;

pub use error::MemoryError;
pub use model::{AgentProfile, AgentState, DecayParams, Memory};
pub use store::MemoryStore;
pub use concurrent_store::ConcurrentMemoryStore;
pub use sharded_store::ShardedMemoryStore;
pub use storage::{FileBackend, SqliteBackend, StorageBackend, StoredData};
