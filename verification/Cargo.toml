[package]
name = "kt_core"
version = "0.1.0"
edition = "2021"
publish = false

[dependencies]
aho-corasick = "=1.1.5"
rand = { version = "=0.8.8", features = ["small_rng"] }
unicode-bidi = "=0.3.18"
unicode-normalization = "=0.1.25"
serde = { version = "=1.0.229", features = ["derive"] }
serde_json = "=1.0.151"
zstd = "=0.13.3"
clap = { version = "=4.6.7", features = ["derive"] }
flume = "=0.11.1"
