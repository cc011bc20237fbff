//! The field with two elements.
//!
//! Addition is exclusive or and multiplication is conjunction, so every
//! operation is exact and linear systems over this field (parity equations)
//! are solved without rounding.

use crate::scalar::{Field, Scalar};
use vstd::prelude::*;

verus! {

/// An element of the two-element field: `false` is zero, `true` is one.
#[derive(Clone, Copy, Debug, PartialEq, Eq, Structural)]
pub struct Gf2(pub bool);

impl Scalar for Gf2 {
    open spec fn zero_spec() -> Gf2 {
        Gf2(false)
    }

    open spec fn one_spec() -> Gf2 {
        Gf2(true)
    }

    open spec fn add_spec(self, rhs: Gf2) -> Gf2 {
        Gf2(self.0 != rhs.0)
    }

    open spec fn mul_spec(self, rhs: Gf2) -> Gf2 {
        Gf2(self.0 && rhs.0)
    }

    open spec fn neg_spec(self) -> Gf2 {
        self
    }

    open spec fn inv_spec(self) -> Gf2 {
        self
    }

    fn zero() -> Gf2 {
        Gf2(false)
    }

    fn one() -> Gf2 {
        Gf2(true)
    }

    fn add(&self, rhs: &Gf2) -> Gf2 {
        Gf2(self.0 != rhs.0)
    }

    fn mul(&self, rhs: &Gf2) -> Gf2 {
        Gf2(self.0 && rhs.0)
    }

    fn neg(&self) -> Gf2 {
        *self
    }

    fn inv(&self) -> Gf2 {
        *self
    }

    fn is_zero(&self) -> bool {
        !self.0
    }
}

impl Field for Gf2 {
    proof fn add_commutative(a: Gf2, b: Gf2) {
    }

    proof fn add_associative(a: Gf2, b: Gf2, c: Gf2) {
    }

    proof fn add_zero(a: Gf2) {
    }

    proof fn add_neg(a: Gf2) {
    }

    proof fn mul_commutative(a: Gf2, b: Gf2) {
    }

    proof fn mul_associative(a: Gf2, b: Gf2, c: Gf2) {
    }

    proof fn mul_one(a: Gf2) {
    }

    proof fn mul_inv(a: Gf2) {
    }

    proof fn distributive(a: Gf2, b: Gf2, c: Gf2) {
    }

    proof fn one_not_zero() {
    }
}

} // verus!
