[package]
name = "map_iced"
version = "0.1.0"
edition = "2021"
publish = false

[dependencies]
fxhash = "=0.2.1"
bytes = "=1.12.1"
tokio = { version = "=1.54.1", features = ["rt", "sync", "fs", "time"] }
tokio-stream = "=0.1.19"
reqwest = { version = "=0.12.28", default-features = false }
serde = { version = "=1.0.229", features = ["derive"] }
serde_json = "=1.0.154"
dirs = "=7.0.0"
iced = { version = "=0.14.0", default-features = false, features = ["canvas", "image-without-codecs", "tokio", "x11", "tiny-skia", "advanced"] }
