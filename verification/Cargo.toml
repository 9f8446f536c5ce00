[package]
name = "mellonella"
version = "0.1.0"
edition = "2021"
publish = false

[dependencies]
cpal = "0.15"
crossbeam-channel = "0.5"
dirs = "5"
ndarray = "0.16"
ort = { version = "=2.0.0-rc.10", default-features = false, features = ["std", "ndarray", "load-dynamic"] }
rubato = "0.15"
serde = { version = "1", features = ["derive"] }
serde_json = "1"
