[package]
name = "bufdb"
version = "0.1.0"
edition = "2021"
publish = false

[dependencies]
chrono = "*"
leveldb = "=0.8.6"
leveldb-sys = "*"
db-key = "=0.0.5"
libc = "*"
serde = { version = "*", features = ["derive"] }
serde_json = "*"
tempdir = "*"
