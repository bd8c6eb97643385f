[package]
name = "tarsila"
version = "0.1.0"
edition = "2021"
publish = false

[dependencies]
egui = "0.17"
egui-macroquad = "0.12"
macroquad = { version = "0.3", default-features = false }
