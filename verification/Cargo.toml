[package]
name = "voxel_logic"
version = "0.1.0"
edition = "2021"
publish = false

[dependencies]
bimap = { version = "0.6", features = ["serde"] }
cgmath = { version = "0.18", features = ["serde"] }
ctrlc = "3"
log = "0.4"
petgraph = { version = "*", features = ["serde-1"] }
serde = { version = "1", features = ["derive"] }
serde_json = "1"
simple_logger = "*"
