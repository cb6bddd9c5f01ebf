[package]
name = "irongraph"
version = "0.1.0"
edition = "2021"
publish = false

[dependencies]
bitflags = "*"
blake3 = "*"
candle-core = { version = "*", default-features = false }
half = "*"
ordered-float = "*"
parking_lot = "*"
postcard = { version = "*", features = ["use-std"] }
roaring = "*"
serde = { version = "*", features = ["derive"] }
tokio-util = "*"
unicode-normalization = "*"
uuid = "*"
