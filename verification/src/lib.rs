//! Vectors over a numeric scalar, and the reduction of a lattice basis
//! built on them: Gram-Schmidt orthogonalisation, size reduction and LLL.
//!
//! The scalar type is a parameter. It brings its own arithmetic through the
//! operators `+`, `-`, `*` and `/`, its order, and the scalars of small
//! integers; the rounding to a whole scalar is handed to the functions that
//! round. The contracts name each result through the operators of the
//! scalar type, whatever that type is.
//!
//! - `vector`: the vector and its arithmetic.
//! - `lattice`: the lattice and its reduction.
//! - `model`: what a lattice holds and what each step of the reduction
//!   makes of it, as mathematical sequences.
//! - `scalar`: what the reduction asks of a scalar type.
//! - `laws`: what holds of every scalar type, and of machine integers.
//! - `exact`: what holds where the scalars calculate exactly.
//! - `error`: why an operation refused its input.

pub mod error;
pub mod exact;
pub mod lattice;
pub mod laws;
pub mod model;
pub mod scalar;
pub mod vector;
