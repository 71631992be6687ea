[package]
name = "curserve"
version = "0.1.0"
edition = "2021"
publish = false

[dependencies]
grep-regex = "*"
grep-searcher = "*"
memmap2 = "*"
rayon = "*"
ignore = "*"
crossbeam-channel = "*"
serde = { version = "*", features = ["derive"] }
serde_json = "*"
