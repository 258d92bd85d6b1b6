[package]
name = "harvest"
version = "0.1.0"
edition = "2021"
publish = false

[dependencies]
anyhow = "1"
clap = { version = "4", features = ["derive"] }
indicatif = "*"
keepawake = "*"
md-5 = "*"
rayon = "1"
serde = { version = "1", features = ["derive"] }
serde_json = "1"
sysinfo = "*"
time = { version = "0.3", features = ["formatting"] }
walkdir = "2"
xxhash-rust = { version = "0.8", features = ["xxh3", "xxh64"] }
