use vstd::prelude::*;

verus! {

/// Why an operation refused its input.
#[derive(Clone, Copy, Debug, PartialEq, Eq, Structural)]
pub enum LinalgError {
    /// Two vectors that had to agree in length did not.
    DimensionMismatch,
    /// A vector without coordinates where at least one is needed.
    EmptyVector,
    /// A reduction parameter outside the range `(1/4, 1]`.
    InvalidDelta,
}

} // verus!
