//! Heuristic solvers for the graph colouring problem: a greedy randomized
//! adaptive search (GRASP) with a merging local search, path relinking over a
//! pool of GRASP solutions, and a genetic algorithm.

pub mod algorithms;
pub mod counting;
pub mod graph;
pub mod input;
mod random;
pub mod solver;
