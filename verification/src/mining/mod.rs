//! Block production.

pub mod miner;
