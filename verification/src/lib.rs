//! Clusters log lines into patterns with a fixed-depth prefix tree.
pub mod cache;
pub mod classifier;
pub mod cluster;
pub mod fingerprint;
pub mod laws;
pub mod model;
pub mod recency;
pub mod similarity;
pub mod text;
pub mod token;
pub mod transform;
pub mod tree;
pub mod ways;
