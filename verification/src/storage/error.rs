use vstd::prelude::*;

verus! {

#[derive(Debug, PartialEq, Eq, Clone, Copy, Structural)]
pub enum NexoraStorageError {
    /// A page that lies past the end of the page store was read.
    UnexpectedEof(u64),
    InvalidMagicBytes,
    UnsupportedVersion(u32),
    CorruptPage(u64),
    InvalidPageType(u8),
    ChecksumMismatch(u64),
    CorruptWal,
    WalIndexFull,
}

} // verus!
