[package]
name = "tile_pathfinding"
version = "0.1.0"
edition = "2021"
publish = false

[dependencies]
ahash = "=0.7.8"
bevy = { version = "=0.6.1", default-features = false, features = ["render", "bevy_winit", "png", "x11"] }
bevy_ecs_tilemap = "=0.5.0"
bevy_tileset_map = "=0.4.1"
bevy_tweening = "=0.3.3"
darling = "=0.13.4"
