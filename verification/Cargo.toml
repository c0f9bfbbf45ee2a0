[package]
name = "wedb_object_lsm"
version = "0.1.0"
edition = "2021"
publish = false

[dependencies]
crc32fast = "1"
serde = { version = "1", features = ["derive"] }
serde_json = "1"
thiserror = "2"
parking_lot = "0.12"
object_store = { version = "0.11", features = ["aws"] }
tokio = { version = "1", features = ["rt-multi-thread"] }
futures-util = "0.3"
md-5 = "0.10"
