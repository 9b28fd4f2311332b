//! What the models come to: relations between what goes into an operation and what comes out.

pub mod acceptance;
pub mod addresses;
pub mod answers;
pub mod blocks;
pub mod chain;
pub mod difficulty;
pub mod ledger;
pub mod limits;
pub mod mempool;
pub mod mining;
pub mod progress;
pub mod relay;
pub mod reorganisation;
pub mod rpc;
pub mod script;
pub mod storage;
pub mod sync;
pub mod utxo;
pub mod wire;
