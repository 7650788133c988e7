[package]
name = "abnf_toolkit"
version = "0.1.0"
edition = "2021"
publish = false

[dependencies]
clap = { version = "4", features = ["derive"] }
directories = "*"
owo-colors = "*"
serde = { version = "1", features = ["derive"] }
strum_macros = "*"
substring = "1"
toml = "*"
