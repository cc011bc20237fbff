//! Dense matrices over an abstract scalar type, and the solution of linear
//! systems by Gaussian elimination.
//!
//! The executable part is small: [`matrix::Matrix`] with its row and column
//! views and its elementary row operations, and in [`elimination`] the two
//! passes of elimination and the solver built on them. Their contracts say
//! what they compute over the mathematical model of [`grid`], for any element
//! type that implements [`scalar::Scalar`].
//!
//! The rest is what holds of these functions when the elements form a field
//! ([`scalar::Field`]):
//!
//! - [`echelon`]: forward elimination gives a row-echelon form with unit
//!   pivots, backward elimination a reduced row-echelon form;
//! - [`equivalence`]: both change a matrix by elementary row operations
//!   only;
//! - [`dependence`]: the solver finds a solution exactly when the rows of the
//!   system are linearly independent;
//! - [`solutions`]: for as many equations as unknowns with independent
//!   coefficient rows, what the solver returns is the one solution;
//! - [`laws`]: the row operations undo each other, elimination leaves a
//!   reduced row-echelon form as it is, and `[I | b]` is solved by `b`.
//!
//! [`gf2::Gf2`] is a field with exact arithmetic; [`algebra`] holds the
//! consequences of the field laws that the proofs share.

pub mod algebra;
pub mod dependence;
pub mod echelon;
pub mod elimination;
pub mod equivalence;
pub mod gf2;
pub mod grid;
pub mod laws;
pub mod matrix;
pub mod scalar;
pub mod solutions;
