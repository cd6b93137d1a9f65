[package]
name = "mrbig"
version = "0.1.0"
edition = "2021"
publish = false

[dependencies]
getopts = "0.2"
prost = "0.6"
prost-types = "0.6"
serde = { version = "1", features = ["derive"] }
tempfile = "3"
toml = "0.5"
