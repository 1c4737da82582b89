[package]
name = "sorting_visualizer"
version = "0.1.0"
edition = "2021"
publish = false

[dependencies]
eframe = { version = "0.21", default-features = false, features = ["default_fonts", "glow", "persistence"] }
egui = "0.21"
rand = "0.8"
serde = { version = "1", features = ["derive"] }
