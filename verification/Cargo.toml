[package]
name = "teleology_core"
version = "0.1.0"
edition = "2021"
publish = false

[dependencies]
bevy_ecs = "0.14"
serde = { version = "1", features = ["derive"] }
serde_json = "1"
bincode = "1"
rayon = "1"
