[package]
name = "mini_lsm_starter"
version = "0.1.0"
edition = "2021"
publish = false

[dependencies]
anyhow = "1"
bytes = "1"
crc32fast = "1"
snap = "1"
lz4_flex = "0.11"
flate2 = "1"
tokio = { version = "1", features = ["full"] }
crossbeam-skiplist = "0.1"
crossbeam-channel = "0.5"
parking_lot = "0.12"
clap = { version = "4", features = ["derive"] }
rustyline = "14"
serde = { version = "1", features = ["derive"] }
rayon = "1"
futures = "0.3"
prost = "0.13"
