[package]
name = "pak"
version = "0.1.0"
edition = "2021"
publish = false

[dependencies]
bincode = "1.3"
serde = { version = "1", features = ["derive"] }
thiserror = "1"
impl-trait-for-tuples = "0.2"
