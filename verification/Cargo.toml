[package]
name = "hashcards"
version = "0.1.0"
edition = "2021"
publish = false

[dependencies]
blake3 = { version = "1", features = ["pure"] }
chrono = "0.4"
pulldown-cmark = "0.13"
percent-encoding = "2"
maud = "0.27"
axum = "0.8"
tokio = { version = "1", features = ["full"] }
clap = { version = "4", features = ["derive"] }
http = "1"
log = "0.4"
rusqlite = { version = "0.37", features = ["bundled"] }
tempfile = "3"
