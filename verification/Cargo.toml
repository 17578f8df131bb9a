[package]
name = "rhytm"
version = "0.1.0"
edition = "2021"
publish = false

[dependencies]
anyhow = "1"
clap = { version = "4", features = ["derive"] }
diesel = { version = "2", features = ["sqlite"] }
diesel_migrations = "2"
indicatif = "*"
indicatif-log-bridge = "*"
libsqlite3-sys = { version = "*", features = ["bundled"] }
log = "0.4"
regex = "1"
serde = { version = "1", features = ["derive"] }
serde_json = "1"
simplelog = "*"
tokio = { version = "1", features = ["rt-multi-thread", "macros"] }
