[package]
name = "sniffbox"
version = "0.1.0"
edition = "2021"
publish = false

[dependencies]
arc-swap = "1"
chacha20poly1305 = "0.10"
dashmap = "6"
hex = "0.4"
httparse = "1"
ipnet = "2"
libc = "0.2"
nix = { version = "0.29", features = ["net"] }
parking_lot = "0.12"
serde = { version = "1", features = ["derive"] }
serde_json = "1"
sha2 = "0.10"
thiserror = "2"
time = "0.3"
tokio = { version = "1", features = ["full"] }
tracing = "0.1"
tracing-subscriber = { version = "0.3", features = ["env-filter"] }
