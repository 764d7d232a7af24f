//! The field of two elements as a scalar type.

use crate::algebra::field_laws;
use crate::scalar::ComplexField;
use vstd::prelude::*;

verus! {

/// The field of two elements: `false` is zero, `true` is one. The smallest
/// scalar type whose arithmetic is exact.
#[derive(Clone, Copy, Debug, PartialEq, Eq, Structural)]
pub struct Gf2(pub bool);

impl ComplexField for Gf2 {
    open spec fn zero_value() -> Self {
        Gf2(false)
    }

    open spec fn one_value() -> Self {
        Gf2(true)
    }

    open spec fn sum(self, rhs: Self) -> Self {
        Gf2(self.0 != rhs.0)
    }

    open spec fn difference(self, rhs: Self) -> Self {
        Gf2(self.0 != rhs.0)
    }

    open spec fn product(self, rhs: Self) -> Self {
        Gf2(self.0 && rhs.0)
    }

    open spec fn negation(self) -> Self {
        self
    }

    open spec fn reciprocal(self) -> Self {
        self
    }

    fn zero() -> Self {
        Gf2(false)
    }

    fn one() -> Self {
        Gf2(true)
    }

    fn add(&self, rhs: &Self) -> Self {
        Gf2(self.0 != rhs.0)
    }

    fn sub(&self, rhs: &Self) -> Self {
        Gf2(self.0 != rhs.0)
    }

    fn mul(&self, rhs: &Self) -> Self {
        Gf2(self.0 && rhs.0)
    }

    fn neg(&self) -> Self {
        *self
    }

    fn recip(&self) -> Self {
        *self
    }

    fn copy(&self) -> Self {
        *self
    }
}

/// The field of two elements obeys the laws of a field.
pub proof fn lemma_gf2_is_a_field()
    ensures
        field_laws::<Gf2>(),
{
    reveal(field_laws);
}

} // verus!
