[package]
name = "verlet"
version = "0.1.0"
edition = "2021"
publish = false

[dependencies]
bevy = { version = "=0.9.1", default-features = false, features = ["bevy_asset", "bevy_winit", "render", "png", "x11"] }
bevy-inspector-egui = "0.17"
bevy_hanabi = "=0.5.3"
bevy_ecs_ldtk = "=0.5.0"
