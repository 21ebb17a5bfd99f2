[package]
name = "tile_workspace"
version = "0.1.0"
edition = "2021"
publish = false

[dependencies]
eframe = { version = "0.32.3", default-features = false, features = ["default_fonts", "glow", "persistence", "wayland", "x11"] }
egui = "0.32.3"
egui_logger = "0.8.0"
image = { version = "0.25", default-features = false, features = ["png"] }
log = "0.4"
serde = { version = "1", features = ["derive"] }
