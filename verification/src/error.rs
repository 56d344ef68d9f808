//! The ways in which a selection can be refused.

use vstd::prelude::*;

verus! {

/// Why a selection was refused.
#[derive(Clone, Copy, Debug, PartialEq, Eq, Structural)]
pub enum SelectError {
    /// The capacity is zero, or more than the packed store has slots for.
    InvalidCapacity,
    /// One of the values that belong to the result does not fit into an item
    /// of the packed store.
    DomainOverflow,
    /// A worker did not deliver the result for its partition.
    WorkerFailure,
}

} // verus!
