[package]
name = "vortex-lz4"
version = "0.1.0"
edition = "2021"
publish = false

[dependencies]
lz4_flex = "*"
prost = "*"
clap = { version = "*", features = ["derive"] }
serde = { version = "*", features = ["derive"] }
serde_json = "*"
flatbuffers = "*"
