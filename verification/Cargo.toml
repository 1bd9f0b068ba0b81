[package]
name = "predictomatic"
version = "0.3.0"
edition = "2021"
publish = false

[dependencies]
form_urlencoded = "1"
maud = "*"
serde = { version = "1", features = ["derive"] }
serde_plain = "1"
sqlite = "*"
tiny_http = "*"
toml = "*"
