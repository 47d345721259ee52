[package]
name = "bevy_godot"
version = "0.1.0"
edition = "2021"
publish = false

[dependencies]
bevy = { version = "0.8", default-features = false }
gdnative = "0.10"
iyes_loopless = "0.7"
