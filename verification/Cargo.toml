[package]
name = "fs_inspector"
version = "0.1.0"
edition = "2021"
publish = false

[dependencies]
notify = "6.1"
serde = { version = "1", features = ["derive"] }
serde_json = "1"
tauri = { version = "2", default-features = false }
tauri-plugin-fs = "2"
