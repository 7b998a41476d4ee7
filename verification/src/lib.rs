//! A finite-field polynomial engine for Reed–Solomon codewords: evaluation of
//! a coefficient polynomial over `F_p`, Lagrange interpolation from values at
//! anchor points, and generation of the full codeword by either route.
//! Two standalone utilities ride along: a linear fingerprint hash and a
//! probabilistic matrix-product verifier.

pub mod field;
pub mod poly;
pub mod lagrange;
pub mod codeword;
pub mod hash;
pub mod freivalds;
pub mod fermat;

pub use field::mod_inv;
pub use poly::evaluate_polynomial;
pub use lagrange::evaluate_lagrange;
pub use codeword::codeword_polynomial;
pub use codeword::codeword_lagrange;
pub use hash::simple_hash;
pub use freivalds::mul_mat_vec;
pub use freivalds::freivalds_test;
