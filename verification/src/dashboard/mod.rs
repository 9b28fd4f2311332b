//! What is shown of the mining.

pub mod stats;
