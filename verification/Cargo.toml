[package]
name = "codecrafters_git"
version = "0.1.0"
edition = "2021"
publish = false

[dependencies]
flate2 = { version = "=1.1.10", default-features = false, features = ["zlib-rs"] }
sha1_smol = "=1.0.1"
tokio = { version = "=1.54.1", features = ["rt-multi-thread"] }
reqwest = { version = "=0.12.28", features = ["stream"] }
futures = "=0.3.34"
