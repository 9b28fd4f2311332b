//! A proof-of-work node whose consensus rules, codecs, chain state, peer
//! protocol and storage layout are stated as contracts and verified.

pub mod collections;
pub mod consensus;
pub mod dashboard;
pub mod laws;
pub mod mining;
pub mod network;
pub mod primitives;
pub mod rpc;
pub mod script;
pub mod storage;
