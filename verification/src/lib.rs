//! A genetic algorithm that searches for the maximizer of a function of two
//! variables, with binary-encoded chromosomes.
//!
//! The library works on exact integers throughout: a chromosome decodes to a
//! ratio of two integers, fitness scores are integers, and rates are ratios.
//! Every function is verified against its contract; the only trusted items
//! are the declarations around the random number generator in [`random`].

pub mod bits;
pub mod breeding;
pub mod dna;
pub mod random;
pub mod ranking;
pub mod train;
