[package]
name = "pijul"
version = "1.0.0"
edition = "2021"
publish = false

[dependencies]
anyhow = "1.0"
bincode = "1.3"
clap = { version = "4", features = ["derive"] }
encoding_rs = "0.8"
env_logger = "0.10"
human-panic = "1"
log = "0.4"
parking_lot = "0.12"
rand = "0.8"
rlimit = "0.9"
sanakirja = "1.4"
serde = { version = "1.0", features = ["derive"] }
serde_json = "1.0"
tokio = { version = "1", features = ["macros", "rt-multi-thread"] }
toml = "0.8"
zstd-seekable = "0.1"
