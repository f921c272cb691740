//! Log-structured storage of timestamped updates: the write-ahead log format, the
//! batches and traces built from it, their compaction, and a sink that drains
//! updates to a message broker.
//!
//! Whatever reaches beyond the memory of the process is left to the caller: a step
//! takes what happened and gives what to do next.

pub mod batch;
pub mod blob;
pub mod blob_laws;
pub mod blob_trace;
pub mod compacter;
pub mod compaction;
pub mod compaction_laws;
pub mod consolidation;
pub mod data;
pub mod endian;
pub mod frontier;
pub mod kafka;
pub mod message;
pub mod names;
pub mod order;
pub mod text;
pub mod trace;
pub mod updates;
pub mod wal;
