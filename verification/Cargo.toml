[package]
name = "kestrel-timer"
version = "0.4.0"
edition = "2021"
publish = false

[dependencies]
rustc-hash = "2"
parking_lot = "0.12"
tokio = { version = "1", features = ["full"] }
futures = "0.3"
lite-sync = "*"
smallvec = "1"
