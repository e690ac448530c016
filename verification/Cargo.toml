[package]
name = "memstore"
version = "0.1.0"
edition = "2021"
publish = false

[dependencies]
actix-web = { version = "=4.15.0", default-features = false }
bytes = "=1.12.1"
futures = "=0.3.34"
futures-core = "=0.3.34"
futures-util = "=0.3.34"
qstring = "=0.7.2"
reqwest = { version = "=0.13.5", default-features = false, features = ["stream"] }
serde = { version = "=1.0.229", features = ["derive"] }
serde_json = "=1.0.151"
