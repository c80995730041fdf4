[package]
name = "stackup_core"
version = "0.1.0"
edition = "2021"
publish = false

[dependencies]
base64 = "=0.22.1"
image = { version = "=0.24.9", default-features = false, features = ["png"] }
rand = "=0.8.8"
rand_distr = "=0.4.3"
regex = "=1.13.1"
serde = { version = "=1.0.229", features = ["derive"] }
tauri = { version = "2", default-features = false }
