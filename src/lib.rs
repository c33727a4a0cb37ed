//! Heuristics for the multidimensional knapsack problem: a greedy constructor,
//! a randomized multi-start constructor and a 1-exchange improver, all built on
//! one verified feasibility-and-accounting pass.
pub mod input;
pub mod item;
pub mod knapsack;
pub mod neighborhood;
pub mod statistics;
mod parallel;
mod sampling;
