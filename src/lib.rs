//! Evaluation of the multilinear extension of a function on the boolean
//! hypercube, over a prime field.
pub mod example;
pub mod field;
pub mod hypercube;
pub mod lagrange;
pub mod mle;
