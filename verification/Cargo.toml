[package]
name = "modgraph"
version = "0.1.0"
edition = "2021"
publish = false

[dependencies]
petgraph = "*"
zip = "*"
toml = "*"
serde = "*"
serde_derive = "*"
