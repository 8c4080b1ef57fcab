[package]
name = "amus"
version = "0.1.0"
edition = "2021"
publish = false

[dependencies]
egui = "*"
serde = { version = "*", features = ["derive"] }
dirs-next = "*"
ureq = "*"
whisper-rs = "*"
