[package]
name = "bigram_stats"
version = "0.1.0"
edition = "2021"
publish = false

[dependencies]
regex = "1"
clap = "2.34"
rand = "0.7"
itertools = "0.10"
serde = { version = "1", features = ["derive"] }
serde_json = "1"
serde-pickle = "1"
reqwest = { version = "0.11", default-features = false, features = ["blocking"] }
