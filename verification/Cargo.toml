[package]
name = "sde"
version = "0.1.0"
edition = "2021"
publish = false

[dependencies]
rusqlite = { version = "*", features = ["array", "bundled"] }
egui-map = "*"
