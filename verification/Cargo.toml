[package]
name = "pm_lib"
version = "0.1.0"
edition = "2021"
publish = false

[dependencies]
im = "*"
license-exprs = "*"
serde = { version = "1", features = ["derive"] }
serde_json = "1"
toml = "*"
docopt = "1"
