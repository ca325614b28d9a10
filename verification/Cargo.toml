[package]
name = "terrain_stream"
version = "0.1.0"
edition = "2021"
publish = false

[dependencies]
bevy = { version = "0.8", default-features = false, features = ["bevy_asset", "bevy_render", "bevy_core_pipeline", "bevy_pbr"] }
bitflags = "1.3"
encase = "0.3"
