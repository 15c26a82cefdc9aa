//! Exact rational arithmetic and number-theoretic algorithms.
//!
//! - [`rational`]: fractions in canonical form over 64-bit parts, with exact
//!   arithmetic that reports what it cannot represent.
//! - [`ratio`]: the unbounded fractions in terms of which that arithmetic is
//!   stated, and [`laws`]: what holds of it for all values.
//! - [`divisibility`]: greatest common divisors and lowest terms.
//! - [`algorithm`]: the contract of an algorithm and its cost class.
//! - [`integral`]: prime factorization and integer-relation search.
//! - [`bigint`]: limb sequences for integers beyond 64 bits.
//! - [`text`]: decimal rendering.

pub mod algorithm;
pub mod bigint;
pub mod divisibility;
pub mod integral;
pub mod laws;
pub mod ratio;
pub mod rational;
pub mod text;

pub use algorithm::{Algorithm, AlgorithmError, Complexity};
pub use bigint::{Ibig, Ubig};
pub use ratio::Ratio;
pub use rational::{ArithmeticError, Rational};
