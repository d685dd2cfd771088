//! An embedded key-value store backed by a segmented, append-only log.
//!
//! The engine keeps every segment's bytes in memory and records the disk
//! operations it performs in an effects journal; a thin I/O shell applies
//! those effects to the log directory and feeds the segment files back in
//! on startup.

pub mod codec;
pub mod errors;
pub mod index;
pub mod kv;
pub mod replay;
pub mod strconv;

pub use codec::Record;
pub use errors::KvError;
pub use kv::Effect;
pub use kv::KvStore;
