//! Reuse traits for pooled values whose elements are plain copies.

use vstd::prelude::*;

verus! {

/// A clone that guarantees the underlying elements are copyable; beyond
/// that it is a plain `clone_from`.
pub trait CloneWithCopyableElements {
    fn copy_clone_from(&mut self, other: &Self);
}

/// A pooled value that can be reset and refilled from another of its
/// kind.
pub trait ReusableCore: CloneWithCopyableElements {
    /// Empties the value for reuse.
    fn reset(&mut self);
}

} // verus!
