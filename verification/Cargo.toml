[package]
name = "coconet"
version = "0.1.0"
edition = "2021"
publish = false

[dependencies]
anyhow = "=1.0.104"
async-trait = "=0.1.92"
bytes = "=1.12.1"
clap = { version = "=4.6.7", default-features = false, features = ["std", "derive", "help", "usage", "error-context"] }
futures = "=0.3.34"
igd = "=0.12.1"
ipnetwork = { version = "=0.20.0", default-features = false }
libp2p = { version = "=0.53.2", default-features = false, features = ["tokio", "quic", "relay", "gossipsub", "identify", "kad", "ping", "dcutr", "autonat", "mdns", "request-response", "noise", "tls", "yamux", "macros", "ed25519"] }
serde = { version = "=1.0.229", features = ["derive"] }
serde_json = "=1.0.154"
tokio = { version = "=1.54.1", features = ["rt-multi-thread", "macros", "io-util", "process", "sync", "time"] }
tracing = "=0.1.44"
tracing-subscriber = { version = "=0.3.23", default-features = false, features = ["fmt", "env-filter"] }
tun = { version = "0.5", features = ["async"] }
xxhash-rust = { version = "=0.8.19", features = ["xxh3"] }
