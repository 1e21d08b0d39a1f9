//! Orders sampled points into one continuous line: neighbor graphs over
//! integer points, two lattice path heuristics, the decision steps of a
//! population-based tour search, and an adaptive quadtree curve.

pub mod error;
pub mod random;
pub mod genetic;
pub mod geometry;
pub mod graph;
pub mod longest;
pub mod boundary;
pub mod hilbert;
