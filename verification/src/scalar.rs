//! The arithmetic that matrix elements must offer.
//!
//! [`Scalar`] lists the operations together with the specification function
//! that each one computes. [`Field`] adds the laws of a commutative field;
//! every algebraic property of elimination is proved from these laws alone.
//!
//! The matrix operations and the solver ask for a [`Scalar`] only, and their
//! contracts say what they compute in terms of its operations. An element
//! type whose arithmetic rounds can therefore be used with them, although it
//! is no [`Field`] and the laws then hold only as far as its arithmetic is
//! exact.

use vstd::prelude::*;

verus! {

/// Element arithmetic: each executable operation returns exactly what its
/// specification function says. Equality of elements is equality of values,
/// so every element has one representation.
pub trait Scalar: Sized {
    /// The additive identity.
    spec fn zero_spec() -> Self;

    /// The multiplicative identity.
    spec fn one_spec() -> Self;

    /// The sum of two elements.
    spec fn add_spec(self, rhs: Self) -> Self;

    /// The product of two elements.
    spec fn mul_spec(self, rhs: Self) -> Self;

    /// The additive inverse.
    spec fn neg_spec(self) -> Self;

    /// The reciprocal; meaningful for nonzero elements only.
    spec fn inv_spec(self) -> Self;

    /// The additive identity.
    fn zero() -> (z: Self)
        ensures
            z == Self::zero_spec(),
    ;

    /// The multiplicative identity.
    fn one() -> (o: Self)
        ensures
            o == Self::one_spec(),
    ;

    /// The sum of two elements.
    fn add(&self, rhs: &Self) -> (s: Self)
        ensures
            s == self.add_spec(*rhs),
    ;

    /// The product of two elements.
    fn mul(&self, rhs: &Self) -> (p: Self)
        ensures
            p == self.mul_spec(*rhs),
    ;

    /// The additive inverse.
    fn neg(&self) -> (n: Self)
        ensures
            n == self.neg_spec(),
    ;

    /// The reciprocal of a nonzero element.
    fn inv(&self) -> (r: Self)
        requires
            *self != Self::zero_spec(),
        ensures
            r == self.inv_spec(),
    ;

    /// Whether the element is the additive identity.
    fn is_zero(&self) -> (b: bool)
        ensures
            b == (*self == Self::zero_spec()),
    ;
}

/// The laws of a commutative field.
pub trait Field: Scalar {
    /// `a + b == b + a`.
    proof fn add_commutative(a: Self, b: Self)
        ensures
            a.add_spec(b) == b.add_spec(a),
    ;

    /// `(a + b) + c == a + (b + c)`.
    proof fn add_associative(a: Self, b: Self, c: Self)
        ensures
            a.add_spec(b).add_spec(c) == a.add_spec(b.add_spec(c)),
    ;

    /// `a + 0 == a`.
    proof fn add_zero(a: Self)
        ensures
            a.add_spec(Self::zero_spec()) == a,
    ;

    /// `a + (-a) == 0`.
    proof fn add_neg(a: Self)
        ensures
            a.add_spec(a.neg_spec()) == Self::zero_spec(),
    ;

    /// `a * b == b * a`.
    proof fn mul_commutative(a: Self, b: Self)
        ensures
            a.mul_spec(b) == b.mul_spec(a),
    ;

    /// `(a * b) * c == a * (b * c)`.
    proof fn mul_associative(a: Self, b: Self, c: Self)
        ensures
            a.mul_spec(b).mul_spec(c) == a.mul_spec(b.mul_spec(c)),
    ;

    /// `a * 1 == a`.
    proof fn mul_one(a: Self)
        ensures
            a.mul_spec(Self::one_spec()) == a,
    ;

    /// `a * (1 / a) == 1` for nonzero `a`.
    proof fn mul_inv(a: Self)
        requires
            a != Self::zero_spec(),
        ensures
            a.mul_spec(a.inv_spec()) == Self::one_spec(),
    ;

    /// `a * (b + c) == a * b + a * c`.
    proof fn distributive(a: Self, b: Self, c: Self)
        ensures
            a.mul_spec(b.add_spec(c)) == a.mul_spec(b).add_spec(a.mul_spec(c)),
    ;

    /// `1 != 0`.
    proof fn one_not_zero()
        ensures
            Self::one_spec() != Self::zero_spec(),
    ;
}

} // verus!
