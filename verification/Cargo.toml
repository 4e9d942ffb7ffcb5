[package]
name = "jm"
version = "0.1.0"
edition = "2021"
publish = false

[dependencies]
semver = "0.11"
petgraph = "0.6"
serde_json = "1"
serde = { version = "1", features = ["derive"] }
reqwest = { version = "0.12", default-features = false, features = ["blocking", "json"] }
flate2 = "1"
tar = "0.4"
globwalk = "0.8"
directories = "3"
log = "0.4"
env_logger = "0.10"
clap = { version = "4", features = ["derive"] }
urlencoding = "2"
path_abs = "0.5"

[dev-dependencies]
tempdir = "0.3"
