[package]
name = "space_shooter"
version = "0.3.1"
edition = "2021"
publish = false

[dependencies]
rand = "0.8"
bevy = { version = "0.8", default-features = false, features = ["bevy_asset", "bevy_winit", "bevy_render", "bevy_core_pipeline", "bevy_sprite", "png", "x11"] }
image = { version = "0.24", default-features = false, features = ["png"] }
winit = { version = "0.26", default-features = false, features = ["x11"] }
