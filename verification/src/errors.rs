//! Error reporting for a solving session.
//!
//! Every surfaced failure carries a kind and an opcode location.  A store
//! conflict is surfaced as its own kind rather than folded into ordinary
//! unsatisfiability: it indicates a defect in the circuit itself, not inputs
//! that merely fail a constraint.

use vstd::prelude::*;

verus! {

/// Where in the circuit a failure was detected: an index into the opcode
/// list, or unresolved when the failure occurred before a stable location
/// was established.
#[derive(Clone, Copy, Debug, PartialEq, Eq, Structural)]
pub enum ErrorLocation {
    Resolved(usize),
    Unresolved,
}

/// Why an operand was rejected before its primitive ever ran.
#[derive(Clone, Copy, Debug, PartialEq, Eq, Structural)]
pub enum MalformedReason {
    /// A declared bit width wider than the field's own bit capacity.
    WidthBeyondField,
}

/// The catalog of named blackbox functions a circuit may call.
#[derive(Clone, Copy, Debug, PartialEq, Eq, Structural)]
pub enum BlackBoxFunc {
    Range,
    And,
    Xor,
}

/// A solving failure: a kind together with the offending opcode's location.
#[derive(Clone, Copy, Debug, PartialEq, Eq, Structural)]
pub enum OpcodeResolutionError {
    /// The circuit is well formed but the inputs cannot satisfy it.
    UnsatisfiedConstrain { opcode_location: ErrorLocation },
    /// A full pass made no progress while opcodes remain unsolved; also the
    /// internal stall signal for a single opcode whose operand is missing.
    OpcodeNotSolvable { opcode_location: ErrorLocation },
    /// A blackbox function rejected its resolved inputs.
    BlackBoxFunctionFailed { function: BlackBoxFunc, opcode_location: ErrorLocation },
    /// Upstream data violates a primitive's precondition.
    MalformedOperand { reason: MalformedReason, opcode_location: ErrorLocation },
    /// A witness was re-assigned a different value: a circuit defect.
    Conflict { opcode_location: ErrorLocation },
}

impl OpcodeResolutionError {
    /// A stall is the one kind the scheduler retries instead of surfacing.
    pub open spec fn is_stall(self) -> bool {
        self is OpcodeNotSolvable
    }

    /// The same failure, pinned to the given opcode index when it had no
    /// resolved location yet.
    pub open spec fn spec_at_location(self, index: usize) -> OpcodeResolutionError {
        match self {
            OpcodeResolutionError::UnsatisfiedConstrain { opcode_location } =>
                OpcodeResolutionError::UnsatisfiedConstrain {
                    opcode_location: opcode_location.spec_resolve(index),
                },
            OpcodeResolutionError::OpcodeNotSolvable { opcode_location } =>
                OpcodeResolutionError::OpcodeNotSolvable {
                    opcode_location: opcode_location.spec_resolve(index),
                },
            OpcodeResolutionError::BlackBoxFunctionFailed { function, opcode_location } =>
                OpcodeResolutionError::BlackBoxFunctionFailed {
                    function,
                    opcode_location: opcode_location.spec_resolve(index),
                },
            OpcodeResolutionError::MalformedOperand { reason, opcode_location } =>
                OpcodeResolutionError::MalformedOperand {
                    reason,
                    opcode_location: opcode_location.spec_resolve(index),
                },
            OpcodeResolutionError::Conflict { opcode_location } =>
                OpcodeResolutionError::Conflict {
                    opcode_location: opcode_location.spec_resolve(index),
                },
        }
    }

    /// Executable twin of `spec_at_location`.
    pub fn at_location(self, index: usize) -> (r: OpcodeResolutionError)
        ensures
            r == self.spec_at_location(index),
    {
        match self {
            OpcodeResolutionError::UnsatisfiedConstrain { opcode_location } =>
                OpcodeResolutionError::UnsatisfiedConstrain {
                    opcode_location: opcode_location.resolve_at(index),
                },
            OpcodeResolutionError::OpcodeNotSolvable { opcode_location } =>
                OpcodeResolutionError::OpcodeNotSolvable {
                    opcode_location: opcode_location.resolve_at(index),
                },
            OpcodeResolutionError::BlackBoxFunctionFailed { function, opcode_location } =>
                OpcodeResolutionError::BlackBoxFunctionFailed {
                    function,
                    opcode_location: opcode_location.resolve_at(index),
                },
            OpcodeResolutionError::MalformedOperand { reason, opcode_location } =>
                OpcodeResolutionError::MalformedOperand {
                    reason,
                    opcode_location: opcode_location.resolve_at(index),
                },
            OpcodeResolutionError::Conflict { opcode_location } =>
                OpcodeResolutionError::Conflict {
                    opcode_location: opcode_location.resolve_at(index),
                },
        }
    }
}

impl ErrorLocation {
    /// An unresolved location becomes the given opcode index; a location
    /// already resolved is kept.
    pub open spec fn spec_resolve(self, index: usize) -> ErrorLocation {
        match self {
            ErrorLocation::Unresolved => ErrorLocation::Resolved(index),
            ErrorLocation::Resolved(i) => ErrorLocation::Resolved(i),
        }
    }

    /// Executable twin of `spec_resolve`.
    pub fn resolve_at(self, index: usize) -> (r: ErrorLocation)
        ensures
            r == self.spec_resolve(index),
    {
        match self {
            ErrorLocation::Unresolved => ErrorLocation::Resolved(index),
            ErrorLocation::Resolved(i) => ErrorLocation::Resolved(i),
        }
    }
}

} // verus!
