//! The failures that the store and the revision graph report.
use vstd::prelude::*;

verus! {

/// Why an operation of the store or the revision graph failed.
#[derive(Debug, Clone, Copy, PartialEq, Eq, Structural)]
pub enum RiftError {
    /// The requested hash or revision is absent.
    NotFound,
    /// The change id was never allocated.
    UnknownChange,
    /// The change was explicitly abandoned.
    Abandoned,
    /// The parent list would make the new revision its own ancestor.
    CycleDetected,
    /// The change's current revision moved since the caller last read it.
    ConcurrentModification,
    /// Two different byte sequences claim one digest.
    Corruption,
}

} // verus!
