[package]
name = "intelligent_file_deduplicator"
version = "0.1.0"
edition = "2021"
publish = false

[dependencies]
sha2 = "*"
regex = "*"
serde = { version = "*", features = ["derive"] }
serde_json = "*"
rayon = "*"
