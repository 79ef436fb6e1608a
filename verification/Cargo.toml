[package]
name = "mote"
version = "0.1.0"
edition = "2021"
publish = false

[dependencies]
anyhow = "1"
blake3 = { version = "1", features = ["pure"] }
clap = { version = "4", features = ["derive"] }
flate2 = "1"
globset = "0.4"
infer = "*"
jwalk = "0.8"
rayon = "1"
serde = { version = "1", features = ["derive"] }
serde_json = "1"
tar = "0.4"
toml = "*"
zip = { version = "*", default-features = false, features = ["deflate"] }
