[package]
name = "sliding_puzzle"
version = "0.1.0"
edition = "2021"
publish = false

[dependencies]
petgraph = "*"
log = "*"
simple_logger = { version = "*", default-features = false }
