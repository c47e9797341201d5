[package]
name = "zen_engine"
version = "0.1.0"
edition = "2021"
publish = false

[dependencies]
memchr = "=2.8.3"
blake3 = "=1.8.7"
rayon = "=1.12.0"
serde = { version = "=1.0.229", features = ["derive"] }
serde_json = "=1.0.154"
byteorder = "=1.5.0"
anyhow = "=1.0.104"
memmap2 = "=0.9.12"
log = "=0.4.35"
walkdir = "=2.5.0"
sysinfo = "=0.40.1"
colored = "=3.1.1"
regex = "=1.13.1"
aho-corasick = "=1.1.5"
libc = "=0.2.191"
clap = { version = "4", features = ["derive"] }
