[package]
name = "raynet"
version = "0.1.0"
edition = "2021"
publish = false

[dependencies]
aegis = { version = "=0.9.20", default-features = false, features = ["std", "pure-rust"] }
atomic_float = "=1.1.0"
bitcode = "=0.6.9"
blake3 = "=1.8.7"
clap = { version = "=4.6.7", features = ["derive"] }
env_logger = "=0.11.11"
fastbloom = "=0.17.0"
kcp = "*"
log = "=0.4.35"
mimalloc = "=0.1.52"
rand = "=0.10.3"
serde = { version = "=1.0.229", features = ["derive"] }
tokio = { version = "=1.54.1", features = ["rt-multi-thread", "net", "io-util", "sync", "time", "macros", "signal"] }
toml = "=1.1.8"
