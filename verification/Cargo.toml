[package]
name = "include_assets"
version = "0.1.0"
edition = "2021"
publish = false

[dependencies]
anyhow = "1"
blake2 = "0.10"
hexhex = "*"
lz4_flex = "0.11"
proc-macro2 = "1"
quote = "1"
smartstring = "1"
syn = { version = "2", features = ["full"] }
thiserror = "1"
walkdir = "2"
yazi = "*"
zstd = "0.13"
