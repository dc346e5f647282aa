//! A persistent, log-structured key/value store.
//!
//! The store keeps string-to-string mappings in a set of append-only log
//! segments.  Every mutation is encoded as a self-delimiting record and
//! appended to the active segment; an in-memory index maps each live key to
//! the position of the newest `Set` record for it.  Replaying the segments in
//! id order rebuilds the index, and a compactor rewrites live records into a
//! fresh segment once enough superseded bytes have accumulated.
//!
//! The engine itself works on an explicit in-memory image of the segment
//! files and emits a queue of file operations that a host applies to the real
//! directory, so the whole storage logic is ordinary verified code.

pub mod codec;
pub mod engine_name;
pub mod error;
pub mod index;
pub mod laws;
pub mod protocol;
pub mod segment;
pub mod sled_engine;
pub mod store;

pub use error::KvsError;
pub use sled_engine::SledKvsEngine;
pub use store::KvStore;
