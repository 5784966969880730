[package]
name = "ferrite_core"
version = "0.1.0"
edition = "2021"
publish = false

[dependencies]
blake3 = "*"
comrak = { version = "*", default-features = false }
slug = "*"
serde = { version = "1", features = ["derive"] }
serde_yaml = "*"
egui = "*"
eframe = { version = "*", default-features = false }
open = "*"
log = "*"
