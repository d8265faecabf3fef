[package]
name = "mastr_export"
version = "0.1.0"
edition = "2021"
publish = false

[dependencies]
quick-xml = "=0.37.5"
xml-rs = "=1.0.0"
chrono = "=0.4.45"
anyhow = "=1.0.104"
argh = "=0.1.19"
serde = { version = "=1.0.229", features = ["derive"] }
serde_json = "=1.0.154"
parquet = { version = "=60.1.0", default-features = false, features = ["arrow", "zstd"] }
arrow = { version = "=60.1.0", default-features = false }
arrow-cast = "=60.1.0"
zip = { version = "=2.6.1", default-features = false, features = ["deflate"] }
