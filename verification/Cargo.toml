[package]
name = "osu-difficulty-lab"
version = "0.3.0"
edition = "2021"
publish = false

[dependencies]
anyhow = "1"
arrow-array = "*"
arrow-schema = "*"
bincode = "1"
clap = { version = "4", features = ["derive"] }
hex = "0.4"
parquet = { version = "*", default-features = false, features = ["arrow"] }
rusqlite = { version = "*", features = ["bundled"] }
serde = { version = "1", features = ["derive"] }
sha2 = "0.10"
thiserror = "2"
