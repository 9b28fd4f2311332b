//! Consensus rules: what a valid transaction, block and chain is.

pub mod block;
pub mod cache;
pub mod chain;
pub mod chain_model;
pub mod difficulty;
pub mod ledger;
pub mod merkle;
pub mod params;
pub mod restart;
pub mod soundness;
pub mod transaction;
pub mod u256;
pub mod utxo;
pub mod validation;
