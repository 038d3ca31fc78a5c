[package]
name = "pagecache"
version = "0.1.0"
edition = "2021"
publish = false

[dependencies]
zstd = "=0.9.2"
rayon = "=1.12.0"
serde = { version = "=1.0.229", features = ["derive"] }
bincode = "=0.9.2"
coco = "*"
