//! A segmented write-ahead log with snapshot compaction.
//!
//! Records `(index, term, key, val)` are framed into a fixed binary layout
//! and appended to numbered segment files.  The log engine keeps an
//! in-memory mirror of the live tail, batches fsyncs, rotates segments at a
//! size threshold, supports suffix truncation and prefix compaction after a
//! snapshot, and recovers from a torn trailing frame on reopen.
//!
//! All disk access is performed by the embedding code; this crate holds the
//! verified record codec, segment naming, and the engine state machine that
//! decides every write, sync, rotation and rewrite.

pub mod codec;
pub mod engine;
pub mod segment;

pub use codec::decode_stream;
pub use codec::encode;
pub use engine::Wal;
pub use engine::WalEntry;
