[package]
name = "tracker_sync"
version = "0.1.0"
edition = "2021"
publish = false

[dependencies]
amethyst = { version = "0.15.3", default-features = false, features = ["animation", "renderer", "empty"] }
amethyst_gltf = "0.15.3"
serde = { version = "1", features = ["derive"] }
