[package]
name = "wyrcan"
version = "0.1.0"
edition = "2021"
publish = false

[dependencies]
anyhow = "1"
clap = { version = "4", features = ["derive"] }
iocuddle = "0.1"
libc = "0.2"
serde = { version = "1", features = ["derive"] }
serde_json = "1"
tar = "0.4"
