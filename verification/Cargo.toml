[package]
name = "fast_graph"
version = "0.1.0"
edition = "2021"
publish = false

[dependencies]
serde = { version = "1", features = ["derive"] }
thiserror = "1"
specta = "1"
slotmap = "1"
hashbrown = "0.14"

[dev-dependencies]
petgraph = "0.6"
rand = "0.8"
