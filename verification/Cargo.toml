[package]
name = "zarrs"
version = "0.1.0"
edition = "2021"
publish = false

[dependencies]
crc32c = "*"
serde = { version = "*", features = ["derive"] }
serde_json = "*"
object_store = "*"
futures = "*"
bytemuck = "*"
ndarray = "*"
