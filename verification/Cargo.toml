[package]
name = "rfcbot_config"
version = "0.1.0"
edition = "2021"
publish = false

[dependencies]
arrayvec = "0.7"
toml = "0.5"
diesel = { version = "1.4", features = ["postgres"] }
