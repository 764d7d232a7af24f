//! Dense kernels over an abstract scalar field: structured matrix products,
//! triangular solves, blocked inversion of triangular matrices, and the
//! reconstruction of a matrix from its LU factors and row permutation.
//!
//! Every routine works on strided views into caller-owned buffers. Contracts
//! are stated over the scalar's specification-level operations, so they fix
//! the result of each routine exactly, whatever scalar type is plugged in.

pub mod algebra;
pub mod confinement;
pub mod dot;
pub mod error;
pub mod exact;
pub mod gf2;
pub mod layout;
pub mod mat;
pub mod matmul;
pub mod model;
pub mod par;
pub mod perm;
pub mod reconstruct;
pub mod scalar;
pub mod scratch;
pub mod structure;
pub mod triangular_inverse;
pub mod triangular_solve;
