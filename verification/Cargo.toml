[package]
name = "daggy"
version = "0.1.0"
edition = "2021"
publish = false

[dependencies]
petgraph = { version = "=0.6.5", default-features = false }
fixedbitset = { version = "=0.4.2", default-features = false }
