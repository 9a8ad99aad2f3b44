[package]
name = "undigraph"
version = "0.1.0"
edition = "2021"
publish = false

[dependencies]
bytes = "1"
bzip2 = "0.4"
futures = "0.3"
indicatif = "0.17"
nalgebra = "0.32"
reqwest = { version = "0.11", default-features = false, features = ["stream"] }
tar = "0.4"
tempfile = "3"
tokio = { version = "1", features = ["rt-multi-thread", "macros"] }
