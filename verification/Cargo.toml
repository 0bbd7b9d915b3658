[package]
name = "hvp-archive"
version = "0.1.0"
edition = "2021"
publish = false

[dependencies]
ahash = "0.8"
crc32fast = "1"
flate2 = "1"
lzokay-native = "*"
lzo1x = "*"
memmap2 = "0.9"
clap = { version = "4", features = ["derive"] }
anyhow = "1"
walkdir = "2"
indicatif = "*"
owo-colors = "*"
anstream = "*"
rayon = "1"
serde_json = "1"
