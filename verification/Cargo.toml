[package]
name = "hackenbush"
version = "0.1.0"
edition = "2021"
publish = false

[dependencies]
petgraph = "0.6"
rand = "0.8"
itertools = "0.10"
nannou = "0.18"
