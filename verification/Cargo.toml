[package]
name = "csv_tool"
version = "0.1.0"
edition = "2021"
publish = false

[dependencies]
memchr = "2"
lru = "0.12"
rayon = "1"
regex = "1"
memmap2 = "0.9"
bincode = "1.3"
serde = { version = "1", features = ["derive"] }
thiserror = "1"
clap = { version = "4", features = ["derive"] }
indicatif = "0.17"
csv = "1"
