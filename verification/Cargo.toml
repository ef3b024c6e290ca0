[package]
name = "libcachesim"
version = "0.1.0"
edition = "2021"
publish = false

[dependencies]
csv = "1"
hashbrown = "0.14"
rand = "0.8"
serde = { version = "1", features = ["derive"] }
thiserror = "1"
