[package]
name = "hnsw"
version = "0.1.0"
edition = "2021"
publish = false

[dependencies]
ahash = "=0.8.12"
allocator-api2 = "=0.2.21"
convenient-skiplist = "=1.0.3"
hashbrown = "=0.17.1"
serde = { version = "=1.0.229", features = ["derive"] }
space = "=0.17.0"
