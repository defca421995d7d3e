use vstd::prelude::*;

verus! {

/// The error kinds reported by the storage engine.
#[derive(Debug, Clone, Copy, PartialEq, Eq, Structural)]
pub enum CrustyError {
    /// A slot index lies at or past the page's slot capacity.
    SlotOutOfBounds,
    /// A write into an occupied slot without `overwrite`, or a move whose
    /// source is free or whose destination is occupied.
    StorageError,
    /// An operation that needs an occupied slot was given a free one.
    SlotEmpty,
    /// Every buffer frame has already been handed out.
    OutOfFrames,
    /// Every container id has already been handed out.
    OutOfContainers,
    /// No index entry has the given search key and pointer.
    KeyNotFound,
    /// The container has not been registered.
    ContainerDoesNotExist,
    /// The (container, page) pair has no frame.
    PageNotFound,
    /// The buffer pool latch could not be acquired in time.
    LatchTimeout,
    /// A lock request waited past its timeout.
    LockTimeout,
    /// Waiting for a lock would close a cycle of waiting transactions.
    Deadlock,
    /// The transaction holds no lock on the resource (or none at all).
    LockNotHeld,
    /// An upgrade or downgrade whose precondition does not hold.
    LockConflict,
    /// The operation is not supported by this structure.
    InvalidOperation,
}

} // verus!
