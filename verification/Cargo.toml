[package]
name = "draft"
version = "0.1.0"
edition = "2021"
publish = false

[dependencies]
taped = "=1.4.0"
linkify = "=0.11.0"
simdutf8 = "=0.1.5"
unindent = "=0.2.4"
regex = "=1.13.1"
ordered-float = "=5.5.1"
serde = "=1.0.229"
thiserror = "=2.0.21"
anyhow = "=1.0.104"
clap = { version = "=4.6.7", features = ["derive"] }
