[package]
name = "mail_blackhole"
version = "0.1.0"
edition = "2021"
publish = false

[dependencies]
mail-parser = "0.8"
mailin = "0.6"
serde = { version = "1", features = ["derive"] }
serde_json = "1"
tokio = { version = "1", features = ["sync", "net", "io-util", "rt-multi-thread", "macros"] }
