[package]
name = "prsync"
version = "0.1.0"
edition = "2021"
publish = false

[dependencies]
anyhow = "1"
aws-config = { version = "1", features = ["behavior-version-latest"] }
aws-sdk-s3 = "1"
aws-types = "1"
base64 = "0.22"
blake3 = "1"
clap = { version = "4", features = ["derive"] }
md5 = "0.7"
rayon = "1"
serde = { version = "1", features = ["derive"] }
tokio = { version = "1", features = ["rt-multi-thread"] }
toml = "0.8"
xxhash-rust = { version = "0.8", features = ["xxh3"] }
