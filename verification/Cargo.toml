[package]
name = "cosmic_keymap"
version = "0.1.0"
edition = "2021"
publish = false

[dependencies]
cosmic-protocols = "*"
smithay = { version = "*", default-features = false, features = ["wayland_frontend"] }
wayland-backend = "*"
