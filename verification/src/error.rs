//! Why an operation on a value is refused.

use vstd::prelude::*;

verus! {

/// Why an operation on a value is refused.
#[derive(Clone, Copy, Debug, PartialEq, Eq, Structural)]
pub enum OperationError {
    /// The result or a length is too large for its representation.
    OverflowError,
    /// The value does not stand for a number.
    ValueError,
    /// The value is of another type.
    WrongTypeError,
    /// There is no value.
    UnknownKeyError,
    /// The position is outside the value.
    OutOfBoundsError,
}

} // verus!
