[package]
name = "helix"
version = "0.1.0"
edition = "2021"
publish = false

[dependencies]
blake3 = "=1.8.7"
hex = "=0.4.3"
sha2 = "=0.10.9"
zstd = "=0.13.4"
globset = "=0.4.21"
similar = "=2.7.0"
regex = "=1.13.1"
chrono = "=0.4.45"
time = "=0.3.55"
toml = "=0.8.23"
serde = { version = "=1.0.229", features = ["derive"] }
anyhow = "1"
clap = { version = "4", features = ["derive"] }
walkdir = "2"
dirs = "5"
uuid = { version = "1", features = ["v4"] }
crossterm = "=0.28.1"
ratatui = "=0.29.0"
console = "=0.15.11"
gix = { version = "0.72", default-features = false, features = ["basic", "max-performance-safe"] }
# Used by gix only, and held back: its later versions need a newer compiler.
kstring = "=2.0.2"
