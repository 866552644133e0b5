[package]
name = "osm_ingest"
version = "0.1.0"
edition = "2021"
publish = false

[dependencies]
quick-xml = "0.31"
sha2 = "0.10"
sqlx = { version = "0.7", default-features = false, features = ["sqlite", "runtime-tokio"] }
tokio = { version = "1", features = ["rt", "macros"] }
anyhow = "1"
