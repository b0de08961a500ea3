//! Constraint/gadget layer of an arithmetic-circuit builder: gates described
//! by polynomial constraints, dependency-scheduled witness generators, a
//! multi-limb unsigned-integer gadget, and a non-deterministic list-insertion
//! gate.

pub mod field;
pub mod extension;
pub mod target;
pub mod witness;
pub mod insertion;
pub mod circuit;
pub mod biguint;

use vstd::prelude::*;

verus! {

/// Errors of circuit construction and witness generation. None of them is
/// recoverable: construction and generation either both succeed, yielding a
/// satisfiable witness, or the proof attempt is abandoned.
#[derive(Clone, Copy, Debug, PartialEq, Eq, Structural)]
pub enum CircuitError {
    /// Operand limb counts differ where equal counts are required.
    ShapeMismatch,
    /// An insertion index outside `[0, vec_size]`.
    IndexOutOfRange,
    /// A division with a divisor whose value is zero.
    ZeroDivisor,
    /// A generator's dependency never received a value (cycle or omitted
    /// wiring), so the scheduler could not make progress.
    MissingDependency,
    /// A second write to an already-assigned target.
    DoubleAssignment,
    /// A read of a target with no value.
    UnassignedTarget,
    /// The self-check found a constraint that does not evaluate to zero.
    UnsatisfiedConstraint,
    /// A value that is not canonical, or not below 2^32 where a limb is
    /// required.
    ValueOutOfRange,
    /// A target outside the witness store.
    TargetOutOfBounds,
}

} // verus!
