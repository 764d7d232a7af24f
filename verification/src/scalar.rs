//! The scalar type that the kernels are generic over.

use vstd::prelude::*;

verus! {

/// The operation vocabulary that the kernels consume from a scalar type.
///
/// Each executable operation is tied to a specification-level operation of
/// the same meaning. The kernels' contracts are phrased over the latter and
/// assume nothing else about them, so they hold for exact and for rounded
/// arithmetic alike, as long as an implementation computes what it declares.
///
/// An implementation in verified code defines the specification-level
/// operations and proves each executable one against them. One in
/// unverified code, such as a floating-point scalar, gives the
/// specification-level operations bodies that are never run.
///
/// Scalars cross threads where a policy asks for it, hence `Send + Sync`.
pub trait ComplexField: Sized + Send + Sync {
    /// The additive identity.
    spec fn zero_value() -> Self;

    /// The multiplicative identity.
    spec fn one_value() -> Self;

    /// `self + rhs`.
    spec fn sum(self, rhs: Self) -> Self;

    /// `self - rhs`.
    spec fn difference(self, rhs: Self) -> Self;

    /// `self * rhs`.
    spec fn product(self, rhs: Self) -> Self;

    /// `-self`.
    spec fn negation(self) -> Self;

    /// `1 / self`.
    spec fn reciprocal(self) -> Self;

    /// The additive identity.
    fn zero() -> (r: Self)
        ensures
            r == Self::zero_value(),
    ;

    /// The multiplicative identity.
    fn one() -> (r: Self)
        ensures
            r == Self::one_value(),
    ;

    /// `self + rhs`.
    fn add(&self, rhs: &Self) -> (r: Self)
        ensures
            r == self.sum(*rhs),
    ;

    /// `self - rhs`.
    fn sub(&self, rhs: &Self) -> (r: Self)
        ensures
            r == self.difference(*rhs),
    ;

    /// `self * rhs`.
    fn mul(&self, rhs: &Self) -> (r: Self)
        ensures
            r == self.product(*rhs),
    ;

    /// `-self`.
    fn neg(&self) -> (r: Self)
        ensures
            r == self.negation(),
    ;

    /// `1 / self`.
    fn recip(&self) -> (r: Self)
        ensures
            r == self.reciprocal(),
    ;

    /// A copy of `self`.
    fn copy(&self) -> (r: Self)
        ensures
            r == *self,
    ;
}

} // verus!
