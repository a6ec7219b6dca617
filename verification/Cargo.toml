[package]
name = "sismokaos"
version = "0.1.0"
edition = "2021"
publish = false

[dependencies]
clap = { version = "4", features = ["derive"] }
serde = { version = "1", features = ["derive"] }
serde_json = "1"
polars = { version = "0.44", default-features = false, features = ["parquet"] }
rustfft = "6"
butterworth = "*"
mseed = "*"
rayon = "1"
time = "0.3"
mimalloc = "*"
