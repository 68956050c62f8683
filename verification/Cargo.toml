[package]
name = "prose"
version = "0.1.0"
edition = "2021"
publish = false

[dependencies]
anyhow = "=1.0.104"
blake3 = { version = "=1.8.7", features = ["pure"] }
unicode-width = "=0.2.3"
anstyle = "=1.0.14"
anstyle-query = "=1.1.5"
anstream = "=1.0.0"
fluent-uri = "=0.4.1"
similar = "=2.7.0"
serde = { version = "=1.0.229", features = ["derive"] }
bincode = { version = "=2.0.1", features = ["serde"] }
dirs = "=7.0.0"
fs-err = "=3.3.2"
tempfile = "=3.27.0"
toml = "=1.1.8"
clap = { version = "=4.6.7", features = ["derive"] }
clap_complete = "4"
serde_json = "1"
