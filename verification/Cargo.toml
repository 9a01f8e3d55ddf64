[package]
name = "autoclicker"
version = "0.1.0"
edition = "2021"
publish = false

[dependencies]
crossbeam-channel = "0.5"
eframe = { version = "*", default-features = false, features = ["default_fonts", "glow", "x11"] }
enigo = "*"
rdev = "0.5"
serde = { version = "1", features = ["derive"] }
toml = "*"
