[package]
name = "chatclm"
version = "0.1.0"
edition = "2021"
publish = false

[dependencies]
chrono = "0.4"
glob = "0.3"
indicatif = "0.17"
itertools = "*"
num = "0.4"
rand = "0.8"
rayon = "1"
regex = "1"
rmp-serde = "1"
rusqlite = { version = "*", features = ["bundled"] }
serde = { version = "1", features = ["derive"] }
tiktoken-rs = "*"
tokenizers = { version = "*", default-features = false, features = ["fancy-regex"] }
tokio = { version = "1", features = ["time"] }
zstd = { version = "0.13", features = ["experimental"] }
zstd-sys = { version = "2", features = ["experimental"] }
