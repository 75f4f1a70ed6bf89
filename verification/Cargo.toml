[package]
name = "engine"
version = "0.1.0"
edition = "2021"
publish = false

[dependencies]
memchr = "2"
memmap2 = "0.9"
rayon = "1"
roaring = "0.10"
dirs = "6"
eframe = { version = "0.31", default-features = false, features = ["glow", "x11"] }
egui = { version = "0.31", default-features = false, features = ["default_fonts"] }
egui_extras = { version = "0.31", default-features = false }
rfd = { version = "0.15", default-features = false, features = ["xdg-portal", "async-std"] }
