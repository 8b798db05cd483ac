[package]
name = "neo_orchestrator"
version = "0.1.0"
edition = "2021"
publish = false

[dependencies]
arrow = { version = "*", default-features = false, features = ["ipc"] }
arrow-ipc = { version = "*", default-features = false, features = ["lz4"] }
indexmap = "2"
nng = "1.0.1"
schemars = "1"
serde = { version = "1", features = ["derive"] }
serde_json = "1"
