//! Evolutionary operators for ternary genomes (genes in {-1, 0, +1}):
//! a seeded linear congruential generator, random genomes, Hamming distance,
//! Pareto dominance and non-dominated sorting, leader-based speciation,
//! niche neighbourhoods, NSGA-II style offspring generation and survivor selection.
//!
//! Objective values are carried as order keys (`Option<i64>`): an integer that
//! orders the values as the numbers they stand for, or `None` for a value that
//! compares neither below nor above any other.
pub mod rng;
pub mod individual;
pub mod pareto;
pub mod diversity;
pub mod ordering;
pub mod nsga;
