[package]
name = "voxel_world"
version = "0.1.0"
edition = "2021"
publish = false

[dependencies]
bevy = { version = "0.8", default-features = false, features = ["render", "bevy_asset", "png"] }
bevy_flycam = "0.8"
bevy-inspector-egui = "0.12"
block-mesh = "0.2"
linked-hash-map = "0.5"
linked_hash_set = "0.1"
noise = "0.8"
rayon = "1"
