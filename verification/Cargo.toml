[package]
name = "sai3_bench"
version = "0.1.0"
edition = "2021"
publish = false

[dependencies]
url = "=2.5.8"
seahash = "=4.1.0"
regex = "=1.13.1"
libc = "=0.2.191"
serde = { version = "=1.0.229", features = ["derive"] }
serde_json = "=1.0.154"
anyhow = "=1.0.104"
async-trait = "=0.1.92"
tokio = { version = "=1.54.1", features = ["fs", "sync", "rt-multi-thread", "macros", "time"] }
hdrhistogram = { version = "=7.6.0", default-features = false, features = ["serialization"] }
parking_lot = "=0.12.5"
postcard = { version = "=1.1.3", features = ["use-std"] }
fjall = "=3.1.13"
tar = "=0.4.46"
zstd = "=0.13.4"
serde_yaml = "=0.9.34"
dgen-data = "*"
chrono = "=0.4.45"
bytes = "1"
