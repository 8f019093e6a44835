[package]
name = "plan_synth"
version = "0.1.0"
edition = "2021"
publish = false

[dependencies]
petgraph = { version = "0.6", default-features = false }
itertools = "0.10"
rayon = "1"
csv = "1"
