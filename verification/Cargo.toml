[package]
name = "sfs_rs"
version = "0.1.0"
edition = "2021"
publish = false

[dependencies]
eframe = { version = "*", default-features = false, features = ["glow", "x11", "default_fonts"] }
egui = { version = "*", default-features = false }
egui_dnd = "*"
egui_extras = { version = "*", default-features = false }
rfd = { version = "*", default-features = false, features = ["xdg-portal"] }
simple-home-dir = "*"
