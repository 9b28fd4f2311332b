//! Scripts: opcodes, signature hashes and execution.

pub mod engine;
pub mod opcodes;
pub mod sighash;
