[package]
name = "highway_hierarchy"
version = "0.1.0"
edition = "2021"
publish = false

[dependencies]
rayon = "1"
serde = { version = "1", features = ["derive"] }
bincode = "1.3"
zstd = "0.13"
