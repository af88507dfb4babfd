[package]
name = "bevy_bhtn"
version = "0.2.0"
edition = "2021"
publish = false

[dependencies]
bevy_asset = { version = "0.18", default-features = false }
bevy_ecs = "0.18"
bevy_reflect = "0.18"
pest = "2"
serde = { version = "1", features = ["derive"] }
smallvec = "1"
thiserror = "2"
ustr = "1"
