[package]
name = "space_shooter_core"
version = "0.1.0"
edition = "2021"
publish = false

[dependencies]
num = "0.4"
bevy = { version = "0.12", default-features = false }
