[package]
name = "cw_attack_rs"
version = "0.1.0"
edition = "2021"
publish = false

[dependencies]
anyhow = "=1.0.104"
clap = { version = "=4.5.61", features = ["derive"] }
image = { version = "=0.25.10", default-features = false, features = ["png", "jpeg"] }
burn = { version = "=0.21.0", default-features = false, features = ["ndarray", "autodiff"] }
burn-store = { version = "=0.21.0", default-features = false, features = ["std", "pytorch", "safetensors"] }
