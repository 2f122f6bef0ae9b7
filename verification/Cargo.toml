[package]
name = "audio_radar"
version = "0.1.0"
edition = "2021"
publish = false

[dependencies]
cpal = "0.15"
eframe = { version = "0.33", default-features = false, features = ["glow", "x11", "default_fonts"] }
log = "0.4"
env_logger = { version = "0.11", default-features = false }
thiserror = "2"
