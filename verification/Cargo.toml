[package]
name = "hexkingdoms"
version = "0.1.0"
edition = "2021"
publish = false

[dependencies]
hexx = { version = "=0.25.0", features = ["serde", "mesh"] }
rand = "=0.9.5"
ron = "=0.12.3"
serde = { version = "=1.0.229", features = ["derive"] }
chrono = "=0.4.45"
thiserror = "=2.0.21"
bevy = { version = "0.17", default-features = false, features = ["std", "multi_threaded", "bevy_asset", "bevy_color", "bevy_core_pipeline", "bevy_gltf", "bevy_pbr", "bevy_render", "bevy_scene", "bevy_state", "bevy_text", "bevy_ui", "bevy_window"] }
