//! Subnets of a test network, derived from the subnets that each node lists.
pub mod decimal;
pub mod entries;
pub mod index_map;
pub mod laws;
pub mod manifest;
mod merger;
pub mod node;
pub mod subnets;
pub mod topology;
