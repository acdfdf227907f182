//! The failures that the library reports.

use vstd::prelude::*;

verus! {

/// Why a computation was refused.
#[derive(Clone, Copy, Debug, PartialEq, Eq, Structural)]
pub enum SequenceError {
    /// The initial values or the coefficients do not number as many as the
    /// order of the recurrence, or the order is zero.
    DimensionMismatch,
    /// A formula holds a token that is no operator, letter or integer, or it
    /// cannot be evaluated on the window it was given.
    MalformedExpression,
    /// The modulus is zero.
    InvalidModulus,
}

} // verus!
