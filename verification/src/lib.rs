//! Dense, banded, sparse and structured linear-system solvers over a
//! caller-supplied real scalar type.
//!
//! The crate is generic over [`scalar::MatLinAlgBound`], an abstraction of a
//! real floating-point number. Every routine is specified and verified
//! relative to the uninterpreted scalar operations of that trait: no routine
//! can panic on inputs admitted by its contract, error cases are classified
//! exactly, and the factors and solutions of the direct decompositions are
//! pinned, entry by entry, to recurrences over those operations, which makes
//! them proven deterministic functions of their inputs.

pub mod linalg;
pub mod matrix;
pub mod scalar;

pub use matrix::Matrix;
pub use matrix::MatrixOpsError;
pub use scalar::MatLinAlgBound;
