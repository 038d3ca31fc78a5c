//! A page cache over a log-structured store.
//!
//! A page is a stack of fragments, each of which was written to the log at a
//! position of its own. The cache decides what happens to the stacks; the
//! caller owns the log, the segment accountant and the eviction policy, and
//! carries out what the cache asks of them.

pub mod id_map;
pub mod laws;
pub mod materializer;
pub mod page_cache;
pub mod reservation;
pub mod snapshot;
pub mod snapshot_file;
pub mod stack;
pub mod state;
pub mod step;
pub mod transitions;
pub mod types;
