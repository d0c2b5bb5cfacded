use vstd::prelude::*;

verus! {

/// Why an operation of this library refused its inputs. A failed operation
/// leaves its receiver unchanged.
#[derive(Clone, Copy, Debug, PartialEq, Eq, Structural)]
pub enum AlgebraError {
    /// The parameters do not describe a usable bilinear group family.
    InvalidParameters,
    /// A byte string has the wrong length or does not encode an element.
    DeserializationError,
    /// The operands' groups (or contexts) do not fit the operation.
    GroupMismatch,
    /// Division by the additive identity of `Zr`.
    DivisionByZero,
    /// The divisor is non-zero but has no inverse modulo the group order.
    NotInvertible,
    /// A hash tag is not exactly 32 bytes long.
    InvalidLength,
    /// A Lagrange reconstruction set of the wrong size or out of range.
    InvalidReconstructionSet,
}

/// `res` is the error `e`.
pub open spec fn fails_with<T>(res: Result<T, AlgebraError>, e: AlgebraError) -> bool {
    match res {
        Ok(_) => false,
        Err(x) => x == e,
    }
}

} // verus!
