[package]
name = "paintress"
version = "0.1.0"
edition = "2021"
publish = false

[dependencies]
clap = { version = "4", features = ["derive"] }
mdns-sd = "*"
reqwest = { version = "*", default-features = false }
serde = { version = "1", features = ["derive"] }
serde_json = "1"
thiserror = "*"
tokio = { version = "1", features = ["rt-multi-thread", "macros"] }
toml = "*"
image = { version = "*", default-features = false, features = ["png", "jpeg"] }
