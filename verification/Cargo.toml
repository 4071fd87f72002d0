[package]
name = "factory_scheduler"
version = "0.1.0"
edition = "2021"
publish = false

[dependencies]
indexmap = "=2.14.2"
itertools = "=0.15.0"
petgraph = "=0.8.3"
rustorio = { version = "=0.1.2", default-features = false }
rustorio-engine = "=0.1.2"
