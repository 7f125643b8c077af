[package]
name = "chatclm"
version = "0.1.0"
edition = "2021"
publish = false

[dependencies]
chrono = "0.4"
clap = { version = "4", features = ["derive"] }
dotenv = "0.15"
human_bytes = "0.4"
indicatif = "0.17"
itertools = "*"
num = "0.4"
rand = "0.9"
rayon = "1"
serde = { version = "1", features = ["derive"] }
serde_json = "1"
unidecode = "0.3"
zstd-sys = { version = "2", features = ["experimental", "zdict_builder", "zstdmt"] }
