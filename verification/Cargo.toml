[package]
name = "reindeer"
version = "0.3.0"
edition = "2021"
publish = false

[dependencies]
sled = "0.34"
bincode = "1.3"
serde = { version = "1", features = ["derive"] }
serde_json = "1"
syn = { version = "1", features = ["full"] }
quote = "1"
proc-macro2 = "1"

[dev-dependencies]
uuid = { version = "1", features = ["v4"] }
