//! Uninformed state-space search over static graphs.
//!
//! A [`dataset::Graph`] is an immutable adjacency structure loaded from a
//! dataset; a [`problem::Problem`] wraps it with a start and a goal state and
//! runs one of the classical uninformed search strategies (breadth-first,
//! uniform-cost, depth-limited, iterative-deepening, bidirectional), each
//! returning a tri-state [`problem::SearchResult`].

pub mod args;
pub mod dataset;
pub mod graph;
pub mod node;
pub mod problem;
pub mod reach;
