//! Shapley values of the operators of a shared network.
pub mod consolidation;
pub mod constants;
pub mod error;
pub mod games;
pub mod laws;
pub mod link_estimate;
pub mod lists;
pub mod lp_builder;
pub mod lp_meaning;
pub mod model;
pub mod multicast;
pub mod pairing;
pub mod quantity;
pub mod reuse;
pub mod routing;
pub mod sampling;
pub mod shapley;
pub mod solver;
pub mod soundness;
pub mod sparse;
pub mod statements;
pub mod tables;
pub mod text;
pub mod types;
pub mod validation;
pub mod warm;
pub mod worth;
