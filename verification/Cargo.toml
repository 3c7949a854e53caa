[package]
name = "hyphae"
version = "0.1.0"
edition = "2021"
publish = false

[dependencies]
rustc-hash = "2.1"
rayon = "1.10"
dashmap = "6.1"
parking_lot = "0.12"
uuid = "1"
