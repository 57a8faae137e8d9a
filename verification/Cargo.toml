[package]
name = "gml_fmt"
version = "0.1.0"
edition = "2021"
publish = false

[dependencies]
anyhow = "1"
clap = "2.33"
fnv = "1.0"
serde = { version = "1", features = ["derive"] }
toml = "0.5"
