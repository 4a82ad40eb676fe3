[package]
name = "fips_tcp"
version = "0.2.1"
edition = "2021"
publish = false

[dependencies]
serde = { version = "1", features = ["derive"] }
serde_json = "1"
fips-core = "*"
