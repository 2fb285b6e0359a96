[package]
name = "vat"
version = "0.1.1"
edition = "2021"
publish = false

[dependencies]
rand = "0.8"
serde_yaml = "0.9"
toml = "0.8"
clap = { version = "4", features = ["derive"] }
clap_complete = "4"
thiserror = "1"
