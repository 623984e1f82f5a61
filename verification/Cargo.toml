[package]
name = "bril_passes"
version = "0.1.0"
edition = "2021"
publish = false

[dependencies]
petgraph = "=0.6.5"
itertools = "=0.10.5"
