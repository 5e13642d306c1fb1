[package]
name = "egui_tiles"
version = "0.1.0"
edition = "2021"
publish = false

[dependencies]
egui = { version = "0.22", default-features = false }
itertools = "0.10"
log = "0.4"
serde = { version = "1", features = ["derive"] }
