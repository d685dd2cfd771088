use vstd::prelude::*;

verus! {

/// The closed error taxonomy of the store.
///
/// `Io` is never produced by the engine itself, which performs no I/O; it is
/// the variant under which the surrounding I/O shell reports filesystem
/// failures to its callers.
#[derive(Debug)]
pub enum KvError {
    /// A filesystem or OS failure, reported by the I/O shell.
    Io,
    /// Bytes at a record position do not parse as any known record.
    CorruptRecord,
    /// Bytes at a record position end before the record is complete.
    TruncatedRecord,
    /// `remove` was called for a key that has no live value.
    KeyNotFound { key: String },
}

} // verus!
