//! Containers keyed by byte strings, and sorting.

pub mod byte_map;
pub mod id_map;
pub mod sort;
