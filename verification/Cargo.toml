[package]
name = "midi_staff_trainer"
version = "0.1.0"
edition = "2021"
publish = false

[dependencies]
rand = "0.8"
midly = "0.5"
serde = { version = "1", features = ["derive"] }
toml = "0.8"
midir = "0.10"
eframe = { version = "*", default-features = false, features = ["default_fonts", "glow", "x11"] }
egui = "*"
rfd = "*"
