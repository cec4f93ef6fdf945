[package]
name = "cnterminal"
version = "0.1.0"
edition = "2021"
publish = false

[dependencies]
chrono = "=0.4.45"
eframe = { version = "=0.34.3", default-features = false, features = ["default_fonts", "glow", "x11"] }
egui = "=0.34.3"
rfd = "0.17"
serialport = { version = "4.10", default-features = false }
