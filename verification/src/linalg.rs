use vstd::prelude::*;

pub mod banddiagonal;
pub mod cholesky;
pub mod gauss_jordan;
pub mod lingcd;
pub mod lu_decomposition;
pub mod qrdcmp;
pub mod sparse;
pub mod svd;
pub mod toeplz;
pub mod tridiagonal;
pub mod vander;

verus! {

/// The failure taxonomy shared by every solver in this crate. All failures
/// are terminal and reported to the caller; none is retried internally.
#[derive(Debug)]
pub enum LinAlgError {
    /// A vector or matrix operand has the wrong size for the operation.
    InvalidSize(),
    /// A vector operand has the wrong length; carries that length.
    InvalidVectorSize(usize),
    /// A matrix operand has the wrong shape; carries its row and column
    /// counts.
    InvalidMatrixSize(usize, usize),
    /// A pivot fell below the singularity threshold during elimination;
    /// carries the name of the routine that detected it.
    SingularMatrix(String),
    /// A diagonal element that the algorithm must divide by is zero; carries
    /// its index.
    ZeroDiagonalElemement(usize),
    /// A computed pivot underflowed the division tolerance.
    ZeroDivision(),
    /// A principal minor of the system is singular.
    SingularPrincipleMinor(),
    /// A recursion that must terminate early ran to its end: an internal
    /// invariant was violated.
    ShouldNotArriveHere(),
    /// A pivot that must be positive was zero or negative.
    NegativeValueNotAllowed(),
}

} // verus!
