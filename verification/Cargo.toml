[package]
name = "neardup"
version = "0.1.0"
edition = "2021"
publish = false

[dependencies]
fxhash = "*"
rustc-hash = "*"
clap = { version = "*", features = ["derive"] }
env_logger = "*"
flate2 = "*"
log = "*"
rayon = "*"
serde = { version = "*", features = ["derive"] }
serde_json = "*"
