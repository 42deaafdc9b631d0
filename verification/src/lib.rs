//! A persistent key-value store built on an append-only command log.
//!
//! The log is a sequence of newline-terminated text records, each encoding a
//! single command.  An in-memory index maps every live key to the range of
//! its current record.  Opening a store replays the whole log to rebuild
//! the index; updates either overwrite a record in place (when the new
//! encoding has the same length), append, or compact the log down to exactly
//! the live records.

pub mod codec;
pub mod errors;
pub mod kv_index;
pub mod log_file;
pub mod replay;
pub mod store;

pub use codec::OptData;
pub use errors::KvError;
pub use store::KvStore;
