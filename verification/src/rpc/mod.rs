//! The interface for other programs.

pub mod base64;
pub mod methods;
pub mod params;
pub mod request;
pub mod server;
