[package]
name = "svxprobe"
version = "0.1.0"
edition = "2021"
publish = false

[dependencies]
rust-lapper = "1"
anyhow = "1"
serde = { version = "1", features = ["derive"] }
serde_json = "1"
clap = { version = "4", features = ["derive"] }
rkyv = "0.8"
memmap2 = "0.9"
