[package]
name = "canvas_geometry"
version = "0.1.0"
edition = "2021"
publish = false

[dependencies]
bevy = { version = "0.16", default-features = false, features = ["std", "bevy_picking", "bevy_render", "bevy_sprite", "bevy_window"] }
radsort = "0.1"
