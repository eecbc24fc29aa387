[package]
name = "concord"
version = "0.1.0"
edition = "2021"
publish = false

[dependencies]
sha2 = "0.10"
serde = { version = "1", features = ["derive"] }
serde_json = "1"
toml = "0.8"
fs2 = "0.4"
rustix = { version = "0.38", features = ["fs"] }
sysinfo = "0.30"
