[package]
name = "l4"
version = "0.1.0"
edition = "2021"
publish = false

[dependencies]
anyhow = "1"
aya = "0.13"
aya-ebpf = "0.1"
bollard = "0.18"
clap = { version = "4", features = ["derive", "env"] }
env_logger = "0.11"
libc = "0.2"
log = "0.4"
network-types = "0.1"
notify = "8"
serde = { version = "1", features = ["derive"] }
serde_yaml = "0.9"
tokio = { version = "1", features = ["macros", "rt", "rt-multi-thread", "net", "io-util", "signal", "sync", "time"] }
xxhash-rust = { version = "0.8", features = ["xxh3"] }
