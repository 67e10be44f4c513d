[package]
name = "rgrep"
version = "0.1.0"
edition = "2021"
publish = false

[dependencies]
regex = "1"
memchr = "2"
memmap2 = "0.9"
walkdir = "2"
rayon = "1"
anyhow = "1"
clap = { version = "4", features = ["derive"] }
