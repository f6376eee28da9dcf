[package]
name = "rdpal"
version = "0.1.0"
edition = "2021"
publish = false

[dependencies]
anyhow = "1"
bzip2 = "0.5"
clap = { version = "4", features = ["derive"] }
flate2 = "1"
libc = "0.2"
walkdir = "2"
zstd = "0.13"

[dev-dependencies]
tempfile = "3"
