//! Analysis of the candidates that a branch holds: their graph, what blocks an object, and the
//! resolution of delta chains under a budget.
pub mod blocking;
pub mod engine;
pub mod graph;
pub mod laws;
pub mod report;
