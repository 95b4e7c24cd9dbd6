[package]
name = "galla"
version = "0.1.0"
edition = "2021"
publish = false

[dependencies]
arboard = "3"
eframe = { version = "0.29", default-features = false, features = ["default_fonts", "glow", "wayland", "x11"] }
egui = { version = "0.29", default-features = false }
image = { version = "0.25", default-features = false, features = ["bmp", "gif", "ico", "jpeg", "png", "tiff", "webp"] }
