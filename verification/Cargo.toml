[package]
name = "mdq"
version = "0.1.0"
edition = "2021"
publish = false

[dependencies]
serde_json = "1"
regex = "1"
walkdir = "2"
comrak = "*"
clap = { version = "4", features = ["cargo"] }
comfy-table = "7"
csv = "1"
env_logger = "*"
log = "0.4"
jsonfilter = "*"
nom = "8"
