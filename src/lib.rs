//! GRASP for the symmetric travelling salesman problem: randomized greedy
//! construction, 2-opt and swap descent, an elite pool with path-relinking,
//! and the bookkeeping of a multi-start search under a time budget.

pub mod instance;
pub mod solution;
pub mod local_search;
pub mod grasp;
pub mod cli;
