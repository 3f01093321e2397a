[package]
name = "aries_planning"
version = "0.1.0"
edition = "2021"
publish = false

[dependencies]
regex = "=1.11.3"
streaming-iterator = "=0.1.9"
anyhow = "=1.0.104"
