[package]
name = "fabrico11y"
version = "0.1.0"
edition = "2021"
publish = false

[dependencies]
serde = { version = "1", features = ["derive"] }
serde_json = "1"
sha2 = "0.10"
time = { version = "0.3", features = ["parsing", "formatting"] }
zstd = "0.13"
rusqlite = { version = "*", features = ["bundled"] }
thiserror = "2"
