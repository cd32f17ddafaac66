[package]
name = "state_game"
version = "0.1.0"
edition = "2021"
publish = false

[dependencies]
crossbeam-channel = "0.5"
dashmap = "6"
lazy_static = "1.4"
serde_json = "1"
