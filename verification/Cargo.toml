[package]
name = "beanfmt"
version = "0.1.0"
edition = "2021"
publish = false

[dependencies]
unicode-width = "=0.2.3"
clap = { version = "=4.6.7", features = ["derive"] }
glob = "=0.3.4"
serde = { version = "=1.0.229", features = ["derive"] }
toml = "=1.1.8"
regex = "1"
