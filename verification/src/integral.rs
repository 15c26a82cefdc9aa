//! Algorithms on integers.

pub mod factorization;
pub mod integer_relation;
