[package]
name = "asset_delta"
version = "0.1.0"
edition = "2021"
publish = false

[dependencies]
bidiff = "*"
bsdiff = "*"
crypto-hash = "*"
flate2 = "*"
hex = "*"
rayon = "*"
serde = { version = "*", features = ["derive"] }
serde_json = "*"
tokio = { version = "*", features = ["fs", "io-util", "macros", "rt-multi-thread", "sync"] }
walkdir = "*"
zip = { version = "*", default-features = false, features = ["deflate"] }
