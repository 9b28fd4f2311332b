//! Byte-level building blocks shared by every other module.

pub mod bigint;
pub mod bytes;
pub mod clock;
pub mod hash;
pub mod hex;
pub mod serialize;
pub mod varint;
