//! Monte Carlo counterfactual regret minimization: edges, paths,
//! information-set keys, and the discounted regret/policy store.

pub mod bucket;
pub mod data;
pub mod edge;
pub mod odds;
pub mod path;
pub mod persist;
pub mod profile;
pub mod sampling;
