//! Persistent state: its key-value layout and the stores on top of it.

pub mod blockchain_db;
pub mod blocks;
pub mod chain_state;
pub mod convert;
pub mod db;
pub mod record;
pub mod utxo;

pub use blockchain_db::BlockchainDB;
pub use blocks::BlockStore;
pub use chain_state::{ChainStateStore, ChainTip};
pub use db::{ColumnFamily, Database};
pub use utxo::UtxoStore;
