[package]
name = "shelf"
version = "0.1.0"
edition = "2021"
publish = false

[dependencies]
chrono = { version = "0.4", features = ["serde"] }
regex = "1"
percent-encoding = "2"
serde = { version = "1", features = ["derive"] }
serde_json = "1"
serde_yaml = "0.8"
git2 = { version = "0.13", default-features = false }
log = "0.4"
pretty_env_logger = "0.4"
app_dirs = "1"
tokio = { version = "0.2", features = ["full"] }
warp = "0.2"
hyper = "0.13"
http = "0.2"
futures = "0.3"
bytes = "0.5"
cookie = "0.14"
reqwest = { version = "0.10", default-features = false }
tera = "0.11"

[dev-dependencies]
tempfile = "3"
