[package]
name = "clamp"
version = "0.1.0"
edition = "2021"
publish = false

[dependencies]
sha2 = "0.10"
hex = "0.4"
toml = "*"
clap = { version = "4", features = ["derive"] }
clap_complete = "4"
