//! Error kinds surfaced by the save-data core.

use vstd::prelude::*;

verus! {

/// Every failure the core can report. No operation retries internally:
/// each error propagates to the caller at once, and in-memory state is
/// left as the contract of the failing operation states.
#[derive(Clone, Copy, Debug, PartialEq, Eq, Structural)]
pub enum Error {
    /// Header signature or version does not match.
    MagicMismatch,
    /// Declared sizes are inconsistent, or a file size disagrees with
    /// its FAT chain length.
    SizeMismatch,
    /// An I/O offset/length exceeds the region length.
    OutOfBound,
    /// An IVFC block failed SHA-256 verification.
    HashMismatch,
    /// The FAT free list (or a metadata free-slot list) is exhausted.
    NoSpace,
    /// A FAT structural invariant is violated.
    BrokenFat,
    /// A metadata lookup by name or ino missed.
    NotFound,
    /// A create or rename would collide with an existing entry.
    AlreadyExist,
    /// A directory delete was attempted with remaining children.
    DeletingNonEmpty,
    /// A host I/O failure reported by a backing store.
    Io,
}

} // verus!
