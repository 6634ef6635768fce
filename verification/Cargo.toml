[package]
name = "sequence_engine"
version = "0.1.0"
edition = "2021"
publish = false

[dependencies]
rand = "0.8"
serde = { version = "1", features = ["derive"] }
serde_json = "1"
bevy_app = "0.16"
bevy_ecs = "0.16"
bevy_time = "0.16"
