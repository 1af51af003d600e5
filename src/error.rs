use vstd::prelude::*;

verus! {

/// Every way an engine operation can fail.
#[derive(Debug, Clone, Copy, PartialEq, Eq, Structural)]
pub enum Error {
    /// A data file could not be opened or created.
    FileOpen,
    /// Reading from a data file failed.
    FileRead,
    /// Writing to a data file failed or was incomplete.
    FileWrite,
    /// Flushing a data file to disk failed.
    FileSync,
    /// The key of a put, get or delete was empty.
    EmptyKey,
    /// The index refused an update.
    IndexUpdate,
    /// The key has no live value.
    KeyNotFound,
    /// The index points at a data file that the engine does not hold.
    DataFileNotFound,
    /// A stored record's checksum does not match its bytes.
    CorruptRecord,
    /// A record declares more bytes than remain.
    Truncated,
}

/// Result type of this crate.
pub type Result<T> = core::result::Result<T, Error>;

} // verus!
