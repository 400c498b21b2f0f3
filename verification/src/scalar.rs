use vstd::prelude::*;

verus! {

/// The numeric operations that every solver in this crate requires of its
/// scalar type: constants, the four arithmetic operations, negation,
/// comparisons, and the derived operations (absolute value, square root,
/// square, sign copy, Euclidean norm of a pair, natural logarithm).
///
/// Each executable operation is paired with an uninterpreted spec function
/// that names its result. The crate states and proves its contracts purely
/// in terms of those names: nothing is assumed about the arithmetic itself
/// (not even associativity), only that each operation is a function of its
/// arguments. An implementation over a machine floating-point type is
/// expected to make each method total (no panics) and deterministic;
/// implementations live outside this crate and are not themselves verified.
pub trait MatLinAlgBound: Sized + Copy {
    /// The additive identity.
    spec fn spec_zero() -> Self;

    /// The multiplicative identity.
    spec fn spec_one() -> Self;

    /// One half.
    spec fn spec_half() -> Self;

    /// The value of the unsigned integer `v` in this scalar type.
    spec fn spec_from_usize(v: usize) -> Self;

    /// The power of ten `10^-k`, used for the fixed numerical thresholds.
    spec fn spec_pow10_neg(k: u32) -> Self;

    /// The machine epsilon of the underlying representation.
    spec fn spec_machine_eps() -> Self;

    spec fn spec_add(self, rhs: Self) -> Self;

    spec fn spec_sub(self, rhs: Self) -> Self;

    spec fn spec_mul(self, rhs: Self) -> Self;

    spec fn spec_div(self, rhs: Self) -> Self;

    spec fn spec_neg(self) -> Self;

    spec fn spec_abs(self) -> Self;

    spec fn spec_sqrt(self) -> Self;

    spec fn spec_square(self) -> Self;

    spec fn spec_copysign(self, sign: Self) -> Self;

    spec fn spec_norm(self, rhs: Self) -> Self;

    spec fn spec_ln(self) -> Self;

    spec fn spec_lt(self, rhs: Self) -> bool;

    spec fn spec_le(self, rhs: Self) -> bool;

    spec fn spec_eq(self, rhs: Self) -> bool;

    fn zero() -> (r: Self)
        ensures
            r == Self::spec_zero(),
    ;

    fn one() -> (r: Self)
        ensures
            r == Self::spec_one(),
    ;

    fn half() -> (r: Self)
        ensures
            r == Self::spec_half(),
    ;

    fn from_usize(v: usize) -> (r: Self)
        ensures
            r == Self::spec_from_usize(v),
    ;

    fn pow10_neg(k: u32) -> (r: Self)
        ensures
            r == Self::spec_pow10_neg(k),
    ;

    fn machine_eps() -> (r: Self)
        ensures
            r == Self::spec_machine_eps(),
    ;

    fn add(self, rhs: Self) -> (r: Self)
        ensures
            r == self.spec_add(rhs),
    ;

    fn sub(self, rhs: Self) -> (r: Self)
        ensures
            r == self.spec_sub(rhs),
    ;

    fn mul(self, rhs: Self) -> (r: Self)
        ensures
            r == self.spec_mul(rhs),
    ;

    fn div(self, rhs: Self) -> (r: Self)
        ensures
            r == self.spec_div(rhs),
    ;

    fn neg(self) -> (r: Self)
        ensures
            r == self.spec_neg(),
    ;

    /// Absolute value.
    fn abs(self) -> (r: Self)
        ensures
            r == self.spec_abs(),
    ;

    /// Square root.
    fn sqrt(self) -> (r: Self)
        ensures
            r == self.spec_sqrt(),
    ;

    /// `self * self`.
    fn square(self) -> (r: Self)
        ensures
            r == self.spec_square(),
    ;

    /// The magnitude of `self` with the sign of `sign`.
    fn copysign(self, sign: Self) -> (r: Self)
        ensures
            r == self.spec_copysign(sign),
    ;

    /// The Euclidean norm `sqrt(self^2 + rhs^2)` of the pair.
    fn norm(self, rhs: Self) -> (r: Self)
        ensures
            r == self.spec_norm(rhs),
    ;

    /// Natural logarithm.
    fn ln(self) -> (r: Self)
        ensures
            r == self.spec_ln(),
    ;

    fn lt(self, rhs: Self) -> (r: bool)
        ensures
            r == self.spec_lt(rhs),
    ;

    fn le(self, rhs: Self) -> (r: bool)
        ensures
            r == self.spec_le(rhs),
    ;

    fn eq(self, rhs: Self) -> (r: bool)
        ensures
            r == self.spec_eq(rhs),
    ;
}

} // verus!
