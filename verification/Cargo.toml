[package]
name = "simdxml"
version = "0.1.0"
edition = "2021"
publish = false

[dependencies]
memchr = "2"
thiserror = "1"
anyhow = "1"
clap = { version = "4", features = ["derive"] }
colorchoice-clap = "1"
owo-colors = "4"
duckdb = "*"
