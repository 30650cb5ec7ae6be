[package]
name = "glyphwire"
version = "0.2.1"
edition = "2021"
publish = false

[dependencies]
regex = "1"
egui = "0.32"
eframe = { version = "0.32", default-features = false, features = ["wgpu", "default_fonts", "x11", "wayland"] }
egui_commonmark = "0.21"
wgpu = "25"
