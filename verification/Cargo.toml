[package]
name = "hast"
version = "0.1.0"
edition = "2021"
publish = false

[dependencies]
base64 = "0.13"
actix-web = "4"
serde = { version = "1", features = ["derive"] }
serde_json = "1"
log = "0.4"
env_logger = "0.10"
structopt = "0.3"
