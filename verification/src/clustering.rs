//! Hierarchical hand abstraction: histograms over child buckets and
//! the earth-mover metric that clusters them.

pub mod histogram;
pub mod layer;
pub mod tables;
