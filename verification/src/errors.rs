//! The error kinds that clock and sequence operations can report.

use vstd::prelude::*;

verus! {

/// Every failure of a clock or sequence operation is one of these kinds.
/// No operation aborts the process: each failure is a value the caller
/// can inspect, and a failed operation leaves the receiver unchanged.
#[derive(Debug, Clone, Copy, PartialEq, Eq, Structural)]
pub enum Error {
    /// `witness` was given a counter that does not strictly exceed the
    /// counter already stored for that actor.
    ConflictingDot,
    /// The predecessor's position is not strictly before the successor's.
    InvalidOrder,
    /// A freshly generated label was already occupied. This kind is retried
    /// internally and is never returned from the public operations.
    AllocationCollision,
    /// Every retry of label generation hit an occupied label.
    AllocationExhausted,
    /// An ancestor entry expected on the walk to the allocation depth is not
    /// present in the tree.
    StructuralInvariantViolation,
    /// The gap search ran past both identifiers, or past the deepest level
    /// this machine can address, without finding room.
    ExhaustedIdentifierSpace,
}

} // verus!
