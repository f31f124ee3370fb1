[package]
name = "pbs_datastore"
version = "0.1.0"
edition = "2021"
publish = false

[dependencies]
hex = "0.4.3"
openssl = "0.10"
anyhow = "1"
log = "0.4"
lazy_static = "1"
libc = "0.2"
walkdir = "2"
serde = { version = "1", features = ["derive"] }
serde_json = "1"
