//! A single-variable polynomial-equation solver.
//!
//! An expression tree is normalized (flatten, simplify), the equation is
//! canonicalized to `expr = 0`, its exponent/coefficient table is extracted,
//! and a closed-form solver reports the roots of the degree-0/1/2 polynomial.
//! All numeric work is exact, over reduced rational numbers.

pub mod canon;
pub mod error;
pub mod expr;
pub mod flatten;
pub mod laws;
pub mod parse;
pub mod pipeline;
pub mod poly;
pub mod rat;
pub mod render;
pub mod simplify;
pub mod solve;

pub use error::ExprError;
