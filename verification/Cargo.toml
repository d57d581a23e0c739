[package]
name = "unsorted_sink"
version = "0.1.0"
edition = "2021"
publish = false

[dependencies]
bincode = "1.3"
serde = { version = "1", features = ["derive"] }
derive_more = { version = "1", features = ["from"] }

[dev-dependencies]
rand = "0.8"
