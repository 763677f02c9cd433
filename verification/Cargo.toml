[package]
name = "smeagol"
version = "0.1.0"
edition = "2021"
publish = false

[dependencies]
comrak = { version = "0.6", default-features = false }
git2 = { version = "*", default-features = false }
handlebars = "1"
itertools = "0.8"
log = "0.4"
percent-encoding = "1"
pretty_env_logger = "0.3"
serde = { version = "1", features = ["derive"] }
serde_json = "1"
toml = "0.5"
warp = { version = "0.1", default-features = false }
