[package]
name = "ferrous_node"
version = "0.1.0"
edition = "2021"
publish = false

[dependencies]
bincode = "1.3"
clap = { version = "4", features = ["derive"] }
crossterm = "0.27"
env_logger = "0.10"
hex = "0.4"
log = "0.4"
lru = "0.12"
num-bigint = "0.4"
num_cpus = "1"
rand = "0.8"
randomx-rs = "1"
ratatui = "0.26"
rayon = "1"
ripemd = "0.1"
secp256k1 = { version = "0.29", features = ["global-context"] }
serde = { version = "1", features = ["derive"] }
serde_json = "1"
sha2 = "0.10"
sysinfo = "0.30"
tempfile = "3"
tiny_http = "0.12"
