[package]
name = "cosmic_workspaces"
version = "0.1.0"
edition = "2021"
publish = false

[dependencies]
calloop = "*"
keyframe = "*"
serde = { version = "1", features = ["derive"] }
smithay = { version = "*", default-features = false }
tracing = "0.1"
