[package]
name = "tiles7800"
version = "0.1.0"
edition = "2021"
publish = false

[dependencies]
anyhow = "1"
clap = { version = "4", features = ["derive"] }
image = { version = "0.24", default-features = false, features = ["png", "gif", "bmp", "jpeg"] }
serde = { version = "1", features = ["derive"] }
serde_yaml = "0.9"
xml_dom = "*"
