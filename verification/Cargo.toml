[package]
name = "avalanche"
version = "0.1.0"
edition = "2021"
publish = false

[dependencies]
rand = "=0.8.8"
bevy = { version = "=0.8.1", default-features = false, features = ["bevy_asset", "bevy_winit", "render", "png", "x11"] }
bevy_tweening = "=0.5.0"
autodefault = "2"
duplicate = "0.4"
strum = "0.24"
strum_macros = "0.24"
web-sys = { version = "0.3", features = ["Window"] }
