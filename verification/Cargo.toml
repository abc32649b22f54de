[package]
name = "extraction_gym"
version = "0.1.0"
edition = "2021"
publish = false

[dependencies]
anyhow = "1"
clap = { version = "4", features = ["derive"] }
egraph-serialize = "*"
env_logger = "*"
indexmap = "2"
log = "0.4"
ordered-float = "*"
