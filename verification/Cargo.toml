[package]
name = "duet_ui"
version = "0.1.0"
edition = "2021"
publish = false

[dependencies]
blake3 = "1"
futures-util = "0.3"
image = { version = "0.25", default-features = false, features = ["png"] }
nucleo-matcher = "0.3"
resvg = { version = "0.45", default-features = false }
usvg = { version = "0.45", default-features = false }
tokio = { version = "1", features = ["fs", "io-util", "rt-multi-thread", "sync", "time"] }
