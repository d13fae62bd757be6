[package]
name = "dat_decode"
version = "0.1.0"
edition = "2021"
publish = false

[dependencies]
flate2 = "1"
encoding_rs = "0.8"
serde_json = "1"
tokio = { version = "1", features = ["rt-multi-thread", "fs", "io-util"] }
