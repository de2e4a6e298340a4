//! An embedded, single-writer key-value store backed by an append-only
//! command log.
//!
//! The store keeps every mutation as a self-delimiting binary record in a
//! byte log; an in-memory index maps each live key to the byte offset of
//! its latest `Put` record.  Recovery replays the log from the start, and
//! compaction rewrites the log to hold exactly one record per live key.
//!
//! The engine itself is purely in-memory: it owns the byte image of the
//! log.  Callers that want durability read the log file into bytes before
//! [`KvStore::open`] and write the engine's log bytes back out after each
//! mutation.

pub mod codec;
pub mod index;
pub mod recovery;
pub mod store;

pub use codec::LogEntry;
pub use store::{KvStore, KvsError, COMPACT_MODIFICATION_CT};
