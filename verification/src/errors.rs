//! Error kinds reported by the runtime core.

use vstd::prelude::*;

verus! {

/// Every failure the runtime core can report.
///
/// All kinds but `GCInvariantViolation` are recoverable and are handed to the
/// interpreter as error values. `GCInvariantViolation` is fatal for the
/// process that owns the heap in which it was found.
#[derive(Clone, Copy, Debug, PartialEq, Eq, Structural)]
pub enum RuntimeError {
    /// The block pool is exhausted under the memory ceiling, or a heap has
    /// used up its block budget.
    AllocationFailure,
    /// A PID is absent from the process table.
    ProcessNotFound,
    /// A message was sent to a PID whose process has terminated.
    SendToDeadProcess,
    /// A class registration or lookup was given malformed input.
    InvalidClass,
    /// A root or a trace step reached memory that holds no object.
    GCInvariantViolation,
    /// An operation that needs a value of one kind was given another.
    TypeMismatch,
    /// A field index is not below the field count of the object's class.
    FieldIndex,
}

impl RuntimeError {
    /// Whether the owning process must be aborted.
    pub open spec fn is_fatal(self) -> bool {
        self == RuntimeError::GCInvariantViolation
    }

    /// Tells fatal errors from recoverable ones.
    pub fn fatal(&self) -> (r: bool)
        ensures
            r == self.is_fatal(),
    {
        match self {
            RuntimeError::GCInvariantViolation => true,
            _ => false,
        }
    }
}

} // verus!
