[package]
name = "fasteetf"
version = "0.1.0"
edition = "2021"
publish = false

[dependencies]
zlib-rs = "*"
miniz_oxide = { version = "*", features = ["with-alloc"] }
libz-sys = "*"
thiserror = "2"
serde_core = "1"
