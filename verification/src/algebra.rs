//! The laws of a field, as a hypothesis on a scalar type, and what follows
//! from them by a few steps.

use crate::scalar::ComplexField;
use vstd::prelude::*;

verus! {

/// The scalar's specification-level operations obey the laws of a field.
/// Exact arithmetic does; rounded arithmetic does not. What is proved under
/// this hypothesis is proved of exact scalars.
#[verifier::opaque]
pub open spec fn field_laws<T: ComplexField>() -> bool {
    &&& forall|a: T, b: T| a.sum(b) == b.sum(a)
    &&& forall|a: T, b: T, c: T| a.sum(b).sum(c) == a.sum(b.sum(c))
    &&& forall|a: T| a.sum(T::zero_value()) == a
    &&& forall|a: T| a.sum(a.negation()) == T::zero_value()
    &&& forall|a: T, b: T| a.difference(b) == a.sum(b.negation())
    &&& forall|a: T, b: T| a.product(b) == b.product(a)
    &&& forall|a: T, b: T, c: T| a.product(b).product(c) == a.product(b.product(c))
    &&& forall|a: T| a.product(T::one_value()) == a
    &&& forall|a: T, b: T, c: T| a.product(b.sum(c)) == a.product(b).sum(a.product(c))
    &&& forall|a: T| a != T::zero_value() ==> a.product(a.reciprocal()) == T::one_value()
}

/// `a + b = b + a`.
pub proof fn lemma_add_comm<T: ComplexField>(a: T, b: T)
    requires
        field_laws::<T>(),
    ensures
        a.sum(b) == b.sum(a),
{
    reveal(field_laws);
}

/// `(a + b) + c = a + (b + c)`.
pub proof fn lemma_add_assoc<T: ComplexField>(a: T, b: T, c: T)
    requires
        field_laws::<T>(),
    ensures
        a.sum(b).sum(c) == a.sum(b.sum(c)),
{
    reveal(field_laws);
}

/// `a + 0 = a = 0 + a`.
pub proof fn lemma_add_zero<T: ComplexField>(a: T)
    requires
        field_laws::<T>(),
    ensures
        a.sum(T::zero_value()) == a,
        T::zero_value().sum(a) == a,
{
    reveal(field_laws);
}

/// `a + (-a) = 0 = (-a) + a`.
pub proof fn lemma_add_neg<T: ComplexField>(a: T)
    requires
        field_laws::<T>(),
    ensures
        a.sum(a.negation()) == T::zero_value(),
        a.negation().sum(a) == T::zero_value(),
{
    reveal(field_laws);
}

/// `a - b = a + (-b)`.
pub proof fn lemma_sub_is_add_neg<T: ComplexField>(a: T, b: T)
    requires
        field_laws::<T>(),
    ensures
        a.difference(b) == a.sum(b.negation()),
{
    reveal(field_laws);
}

/// `a * b = b * a`.
pub proof fn lemma_mul_comm<T: ComplexField>(a: T, b: T)
    requires
        field_laws::<T>(),
    ensures
        a.product(b) == b.product(a),
{
    reveal(field_laws);
}

/// `(a * b) * c = a * (b * c)`.
pub proof fn lemma_mul_assoc<T: ComplexField>(a: T, b: T, c: T)
    requires
        field_laws::<T>(),
    ensures
        a.product(b).product(c) == a.product(b.product(c)),
{
    reveal(field_laws);
}

/// `a * 1 = a = 1 * a`.
pub proof fn lemma_mul_one<T: ComplexField>(a: T)
    requires
        field_laws::<T>(),
    ensures
        a.product(T::one_value()) == a,
        T::one_value().product(a) == a,
{
    reveal(field_laws);
}

/// `a * (b + c) = a * b + a * c`.
pub proof fn lemma_distributes<T: ComplexField>(a: T, b: T, c: T)
    requires
        field_laws::<T>(),
    ensures
        a.product(b.sum(c)) == a.product(b).sum(a.product(c)),
{
    reveal(field_laws);
}

/// `a * (1 / a) = 1` for `a` other than zero.
pub proof fn lemma_mul_recip<T: ComplexField>(a: T)
    requires
        field_laws::<T>(),
        a != T::zero_value(),
    ensures
        a.product(a.reciprocal()) == T::one_value(),
{
    reveal(field_laws);
}

/// What adds up to zero with `a` is the negation of `a`.
pub proof fn lemma_neg_unique<T: ComplexField>(a: T, b: T)
    requires
        field_laws::<T>(),
        a.sum(b) == T::zero_value(),
    ensures
        b == a.negation(),
{
    let na = a.negation();
    lemma_add_zero(b);
    lemma_add_neg(a);
    lemma_add_assoc(na, a, b);
    lemma_add_zero(na);
    assert(b == T::zero_value().sum(b));
    assert(T::zero_value().sum(b) == na.sum(a).sum(b));
    assert(na.sum(a).sum(b) == na.sum(a.sum(b)));
    assert(na.sum(a.sum(b)) == na);
}

/// `a * 0 = 0 = 0 * a`.
pub proof fn lemma_mul_zero<T: ComplexField>(a: T)
    requires
        field_laws::<T>(),
    ensures
        a.product(T::zero_value()) == T::zero_value(),
        T::zero_value().product(a) == T::zero_value(),
{
    let zero = T::zero_value();
    let z = a.product(zero);
    lemma_add_zero(zero);
    lemma_distributes(a, zero, zero);
    assert(z.sum(z) == z);
    lemma_add_neg(z);
    lemma_add_assoc(z, z, z.negation());
    lemma_add_zero(z);
    assert(z == z.sum(z.sum(z.negation())));
    assert(z.sum(z).sum(z.negation()) == zero);
    lemma_mul_comm(a, zero);
}

/// `a * (-b) = -(a * b) = (-a) * b`.
pub proof fn lemma_mul_neg<T: ComplexField>(a: T, b: T)
    requires
        field_laws::<T>(),
    ensures
        a.product(b.negation()) == a.product(b).negation(),
        a.negation().product(b) == a.product(b).negation(),
{
    lemma_distributes(a, b, b.negation());
    lemma_add_neg(b);
    lemma_mul_zero(a);
    lemma_neg_unique(a.product(b), a.product(b.negation()));
    lemma_distributes(b, a, a.negation());
    lemma_add_neg(a);
    lemma_mul_zero(b);
    lemma_neg_unique(b.product(a), b.product(a.negation()));
    lemma_mul_comm(a, b);
    lemma_mul_comm(a.negation(), b);
}

/// `a + (b - a) = b`.
pub proof fn lemma_add_sub<T: ComplexField>(a: T, b: T)
    requires
        field_laws::<T>(),
    ensures
        a.sum(b.difference(a)) == b,
{
    let na = a.negation();
    lemma_sub_is_add_neg(b, a);
    lemma_add_comm(b, na);
    lemma_add_assoc(a, na, b);
    lemma_add_neg(a);
    lemma_add_zero(b);
}

/// `a * (b * (1 / a)) = b` for `a` other than zero.
pub proof fn lemma_mul_div<T: ComplexField>(a: T, b: T)
    requires
        field_laws::<T>(),
        a != T::zero_value(),
    ensures
        a.product(b.product(a.reciprocal())) == b,
{
    let r = a.reciprocal();
    lemma_mul_comm(b, r);
    lemma_mul_assoc(a, r, b);
    lemma_mul_recip(a);
    lemma_mul_one(b);
}

} // verus!
