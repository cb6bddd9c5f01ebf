//! Deterministic references for priority graph algorithms.

pub mod components;
pub mod cores;
pub mod dijkstra;
pub mod louvain;
pub mod metrics;
pub mod multilevel;
pub mod paths;
pub mod strong;
pub mod traversal;
pub mod unit;
pub mod weights;
