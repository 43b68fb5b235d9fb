[package]
name = "deduplicator"
version = "0.1.0"
edition = "2021"
publish = false

[dependencies]
libflate = "*"
num_cpus = "*"
crossbeam-channel = "*"
rusqlite = { version = "*", features = ["bundled"] }
osmpbfreader = "*"
