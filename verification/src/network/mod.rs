//! The peer-to-peer protocol.

pub mod address;
pub mod addrman;
pub mod batch;
pub mod connection;
pub mod diagnostics;
pub mod discovery;
pub mod dispatch;
pub mod dos;
pub mod download;
pub mod handshake;
pub mod headers;
pub mod inspect;
pub mod keepalive;
pub mod listener;
pub mod manager;
pub mod mempool;
pub mod message;
pub mod outgoing;
pub mod peer;
pub mod protocol;
pub mod ratelimit;
pub mod recovery;
pub mod relay;
pub mod security;
pub mod stats;
pub mod sync;
pub mod sync_model;
pub mod validation;
