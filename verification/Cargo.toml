[package]
name = "msg_level_select"
version = "0.1.0"
edition = "2021"
publish = false

[dependencies]
bevy = { version = "=0.18.1", default-features = false, features = ["std", "bevy_log", "bevy_camera"] }
bevy_fsm = "0.3"
rand = { version = "=0.9.5", features = ["small_rng"] }
thiserror = "=2.0.21"
voronoice = "=0.2.0"
