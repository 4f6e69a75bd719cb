[package]
name = "bytepiece"
version = "0.1.0"
edition = "2021"
publish = false

[dependencies]
aho-corasick = "=1.1.5"
base64-simd = "=0.8.0"
fastrand = "=2.5.0"
serde_json = "=1.0.154"
thiserror = "=1.0.69"
