[package]
name = "path_finding"
version = "1.1.0"
edition = "2021"
publish = false

[dependencies]
rand = "=0.9.5"
maze_generator = "=2.0.0"
noise = "=0.9.0"
bevy = { version = "0.17", default-features = false, features = ["bevy_winit", "bevy_asset", "bevy_render", "bevy_core_pipeline", "bevy_sprite", "x11"] }
bevy_ecs_tilemap = "0.17"
